//! The protocol spoken with the ArkTS host.
//!
//! The host owns the OHOS window manager, the file pickers, the cursor and
//! the application's lifecycle. The backend sends it commands, asks it
//! questions whose answers are UTF-8 text, and receives events from it; this
//! module holds the numbers both sides agree on, the payloads the backend
//! builds and the answers it reads.

use vstd::prelude::*;
use vstd::utf8::{
    codepoint_width_2, codepoint_width_3, codepoint_width_4, decode_utf8, is_continuation_byte, length_of_first_scalar,
    pop_first_scalar, valid_first_scalar, valid_utf8,
};
use crate::text::{
    chars_of, concat, decimal, signed_decimal, spec_decimal, spec_signed_decimal, find_char, lemma_next_index_of, lines, next_index_of, parse_i32, same_chars, spec_lines,
    spec_parse_int, spec_trim, text_between, text_of, trim,
};

verus! {

// Commands the backend sends to the host. Fire-and-forget.

pub const OP_SET_TITLE: i32 = 1;
pub const OP_MINIMIZE: i32 = 2;
pub const OP_MAXIMIZE: i32 = 3;
pub const OP_SET_FULLSCREEN: i32 = 4;
pub const OP_START_MOVE: i32 = 5;
pub const OP_START_RESIZE: i32 = 6;
pub const OP_SET_DECOR: i32 = 7;
pub const OP_OPEN_URL: i32 = 8;
pub const OP_REVEAL_PATH: i32 = 9;
pub const OP_OPEN_WITH: i32 = 10;
pub const OP_SET_CURSOR: i32 = 11;
pub const OP_PICK_PATHS: i32 = 12;
pub const OP_PICK_NEW_PATH: i32 = 13;
pub const OP_REQUEST_FOCUS: i32 = 15;
/// Create another OHOS window with an XComponent named by the argument.
pub const OP_CREATE_WINDOW: i32 = 16;
/// Ask the host to draw a frame now rather than at the next refresh.
pub const OP_REQUEST_FRAME: i32 = 17;
/// Which way round the theme is: the host draws the window buttons for it.
pub const OP_SET_APPEARANCE: i32 = 18;
/// Close the window this id names, because the application is done with it.
pub const OP_CLOSE_WINDOW: i32 = 19;

// Synchronous queries. The host answers with UTF-8 text.

pub const QUERY_WINDOW_RECT: i32 = 100;
pub const QUERY_COLOR_MODE: i32 = 102;
/// Open a picked file read/write and return its descriptor.
pub const QUERY_OPEN_FILE: i32 = 105;
/// List a picked directory: "name|isDir|uri" per line.
pub const QUERY_LIST_DIR: i32 = 106;
/// The folder to restore, if the host has one.
pub const QUERY_RESTORE_FOLDER: i32 = 107;
/// Create a directory inside a picked root.
pub const QUERY_CREATE_DIR: i32 = 109;
/// Remove a file (or a directory) inside a picked root.
pub const QUERY_REMOVE: i32 = 110;
/// Rename an entry inside a picked root.
pub const QUERY_RENAME: i32 = 111;

// Events the host pushes into the backend.

pub const EVENT_APPEARANCE: i32 = 1;
pub const EVENT_FOCUS: i32 = 2;
pub const EVENT_WINDOW_STATUS: i32 = 3;
pub const EVENT_LIFECYCLE: i32 = 4;
pub const EVENT_PICK_RESULT: i32 = 5;
pub const EVENT_WINDOW_RECT: i32 = 6;
/// A folder URI to restore after the app restarts.
pub const EVENT_RESTORE_FOLDER: i32 = 7;
/// Enable the forced-redraw benchmark; the argument is the number of frames.
pub const EVENT_BENCHMARK: i32 = 8;
/// A window is gone: the platform closed it.
pub const EVENT_WINDOW_CLOSED: i32 = 9;

} // verus!

verus! {

// ---------------------------------------------------------------------------
// Commands
// ---------------------------------------------------------------------------

/// A command argument that names the window it targets: "id\targ". The host
/// strips the id before handling the rest, so an id must not contain a tab.
pub open spec fn spec_window_op_payload(id: Seq<char>, arg: Seq<char>) -> Seq<char> {
    id + seq!['\t'] + arg
}

/// The argument of a command for the window `id`.
pub fn window_op_payload(id: &str, arg: &str) -> (payload: String)
    ensures
        payload@ == spec_window_op_payload(id@, arg@),
{
    let tab = text_of(&['\t']);
    let with_tab = concat(id, tab.as_str());
    let payload = concat(with_tab.as_str(), arg);
    assert(payload@ =~= spec_window_op_payload(id@, arg@));
    payload
}

/// Whether the host can be handed `text`: it crosses as a C string, which
/// ends at the first NUL, so text with one is not sent at all.
pub open spec fn spec_fits_c_string(text: Seq<char>) -> bool {
    forall|i: int| 0 <= i < text.len() ==> text[i] != '\0'
}

/// Whether `text` can cross to the host as a C string.
pub fn fits_c_string(text: &str) -> (fits: bool)
    ensures
        fits == spec_fits_c_string(text@),
{
    let chars = chars_of(text);
    let mut i: usize = 0;
    while i < chars.len()
        invariant
            i <= chars@.len(),
            chars@ == text@,
            forall|j: int| 0 <= j < i ==> text@[j] != '\0',
        decreases chars@.len() - i,
    {
        if chars[i] == '\0' {
            return false;
        }
        i = i + 1;
    }
    true
}

/// The argument of `QUERY_REMOVE`: "1\turi" for a directory, "0\turi" for a
/// file.
pub open spec fn spec_remove_payload(uri: Seq<char>, is_dir: bool) -> Seq<char> {
    (if is_dir { seq!['1'] } else { seq!['0'] }) + seq!['\t'] + uri
}

pub fn remove_payload(uri: &str, is_dir: bool) -> (payload: String)
    ensures
        payload@ == spec_remove_payload(uri@, is_dir),
{
    let flag = if is_dir { text_of(&['1', '\t']) } else { text_of(&['0', '\t']) };
    let payload = concat(flag.as_str(), uri);
    assert(payload@ =~= spec_remove_payload(uri@, is_dir));
    payload
}

/// The argument of `QUERY_RENAME`: "from\tto".
pub fn rename_payload(from: &str, to: &str) -> (payload: String)
    ensures
        payload@ == from@ + seq!['\t'] + to@,
{
    let tab = text_of(&['\t']);
    let with_tab = concat(from, tab.as_str());
    let payload = concat(with_tab.as_str(), to);
    assert(payload@ =~= from@ + seq!['\t'] + to@);
    payload
}

// ---------------------------------------------------------------------------
// Answers
// ---------------------------------------------------------------------------

/// The descriptor the host answered `QUERY_OPEN_FILE` with: the answer,
/// trimmed, as a number; a failed query or any other answer opens nothing.
pub open spec fn spec_open_file(answer: Result<Seq<char>, Seq<char>>) -> Option<i32> {
    match answer {
        Ok(text) => match spec_parse_int(spec_trim(text), i32::MIN as int, i32::MAX as int) {
            Some(fd) => Some(fd as i32),
            None => None,
        },
        Err(_) => None,
    }
}

/// The descriptor of the picked file the host opened, from its answer.
pub fn open_picked_file(answer: Result<String, String>) -> (fd: Option<i32>)
    ensures
        fd == spec_open_file(match answer { Ok(t) => Ok(t@), Err(e) => Err(e@) }),
{
    match answer {
        Ok(text) => {
            let trimmed = trim(text.as_str());
            parse_i32(trimmed.as_str())
        },
        Err(_) => None,
    }
}

/// The outcome of a command the host answers "0" on success: any other
/// answer is the error, trimmed; a failed query is its own error.
pub open spec fn spec_status(answer: Result<Seq<char>, Seq<char>>) -> Result<(), Seq<char>> {
    match answer {
        Ok(text) => if spec_trim(text) == seq!['0'] { Ok(()) } else { Err(spec_trim(text)) },
        Err(e) => Err(e),
    }
}

/// The outcome of a command, from the host's answer.
pub fn status(answer: Result<String, String>) -> (outcome: Result<(), String>)
    ensures
        match (outcome, spec_status(match answer { Ok(t) => Ok(t@), Err(e) => Err(e@) })) {
            (Ok(()), Ok(())) => true,
            (Err(a), Err(b)) => a@ == b,
            _ => false,
        },
{
    match answer {
        Ok(text) => {
            let trimmed = trim(text.as_str());
            let zero: [char; 1] = ['0'];
            assert(zero@ =~= seq!['0']);
            let chars = chars_of(trimmed.as_str());
            if same_chars(chars.as_slice(), &zero) {
                Ok(())
            } else {
                Err(trimmed)
            }
        },
        Err(error) => Err(error),
    }
}

/// The folder the host wants restored, from its answer: none when the query
/// failed or the answer is empty.
pub fn restore_folder(answer: Result<String, String>) -> (folder: Option<String>)
    ensures
        match answer {
            Ok(t) => if t@.len() == 0 { folder is None } else { folder matches Some(f) && f@ == t@ },
            Err(_) => folder is None,
        },
{
    match answer {
        Ok(text) => {
            if text.as_str().is_empty() {
                None
            } else {
                Some(text)
            }
        },
        Err(_) => None,
    }
}

/// One line of a directory listing, "name|isDir|uri": the name, whether the
/// entry is a directory ("1"), and its URI, which is everything after the
/// second bar. A line with fewer than two bars lists nothing.
pub open spec fn spec_listing_entry(line: Seq<char>) -> Option<(Seq<char>, bool, Seq<char>)> {
    let a = next_index_of(line, '|', 0);
    if a >= line.len() {
        None
    } else {
        let b = next_index_of(line, '|', a + 1);
        if b >= line.len() {
            None
        } else {
            Some((line.subrange(0, a), line.subrange(a + 1, b) == seq!['1'], line.subrange(b + 1, line.len() as int)))
        }
    }
}

/// The entries of a directory listing, line by line, in order.
pub open spec fn spec_listing(lines: Seq<Seq<char>>) -> Seq<(Seq<char>, bool, Seq<char>)>
    decreases lines.len(),
{
    if lines.len() == 0 {
        Seq::empty()
    } else {
        let prev = spec_listing(lines.drop_last());
        match spec_listing_entry(lines.last()) {
            Some(e) => prev.push(e),
            None => prev,
        }
    }
}

/// The views of listing entries.
pub open spec fn entry_views(entries: Seq<(String, bool, String)>) -> Seq<(Seq<char>, bool, Seq<char>)> {
    Seq::new(entries.len(), |i: int| (entries[i].0@, entries[i].1, entries[i].2@))
}

/// One line of a directory listing; see `spec_listing_entry`.
pub fn listing_entry(line: &str) -> (entry: Option<(String, bool, String)>)
    ensures
        match entry {
            Some(e) => spec_listing_entry(line@) == Some((e.0@, e.1, e.2@)),
            None => spec_listing_entry(line@) is None,
        },
{
    let chars = chars_of(line);
    proof {
        lemma_next_index_of(line@, '|', 0);
    }
    let a = find_char(chars.as_slice(), '|', 0);
    if a >= chars.len() {
        return None;
    }
    proof {
        lemma_next_index_of(line@, '|', a + 1);
    }
    let b = find_char(chars.as_slice(), '|', a + 1);
    if b >= chars.len() {
        return None;
    }
    let name = text_between(chars.as_slice(), 0, a);
    let kind = text_between(chars.as_slice(), a + 1, b);
    let one: [char; 1] = ['1'];
    assert(one@ =~= seq!['1']);
    let kind_chars = chars_of(kind.as_str());
    let is_dir = same_chars(kind_chars.as_slice(), &one);
    let uri = text_between(chars.as_slice(), b + 1, chars.len());
    Some((name, is_dir, uri))
}

/// A picked directory's entries as (name, is_directory, uri), from the
/// host's answer to `QUERY_LIST_DIR`; a failed query lists nothing.
pub fn list_picked_dir(answer: Result<String, String>) -> (entries: Vec<(String, bool, String)>)
    ensures
        entry_views(entries@) == match answer {
            Ok(t) => spec_listing(spec_lines(t@)),
            Err(_) => Seq::empty(),
        },
{
    let text = match answer {
        Ok(text) => text,
        Err(_) => {
            let entries: Vec<(String, bool, String)> = Vec::new();
            assert(entry_views(entries@) =~= Seq::empty());
            return entries;
        },
    };
    let all = lines(text.as_str());
    let ghost views = all@.map_values(|line: String| line@);
    let mut entries: Vec<(String, bool, String)> = Vec::new();
    let mut i: usize = 0;
    assert(entry_views(entries@) =~= Seq::empty());
    while i < all.len()
        invariant
            i <= all@.len(),
            views == all@.map_values(|line: String| line@),
            views == spec_lines(text@),
            entry_views(entries@) == spec_listing(views.take(i as int)),
        decreases all@.len() - i,
    {
        assert(views.take(i + 1).drop_last() =~= views.take(i as int));
        assert(views.take(i + 1).last() == all@[i as int]@);
        match listing_entry(all[i].as_str()) {
            Some(entry) => {
                let ghost before = entries@;
                let ghost e = (entry.0@, entry.1, entry.2@);
                entries.push(entry);
                proof {
                    assert(entry_views(entries@) =~= entry_views(before).push(e));
                }
            },
            None => {},
        }
        i = i + 1;
    }
    proof {
        assert(views.take(i as int) =~= views);
    }
    entries
}

} // verus!

verus! {

// ---------------------------------------------------------------------------
// Answers as bytes
// ---------------------------------------------------------------------------

#[verifier::external_type_specification]
#[verifier::external_body]
pub struct ExFromUtf8Error(std::string::FromUtf8Error);

/// `String::from_utf8`: the text the bytes encode when they are valid
/// UTF-8, an error otherwise.
#[verifier::external_body]
fn string_from_utf8(bytes: Vec<u8>) -> (text: Result<String, std::string::FromUtf8Error>)
    ensures
        text is Ok <==> valid_utf8(bytes@),
        text matches Ok(t) ==> t@ == decode_utf8(bytes@),
{
    String::from_utf8(bytes)
}

/// `FromUtf8Error`'s `Display`: std's description of where the bytes stop
/// being UTF-8. Nothing is stated of the text.
#[verifier::external_body]
fn utf8_error_text(error: &std::string::FromUtf8Error) -> (text: String) {
    error.to_string()
}

/// How many bytes from the start are whole, valid UTF-8 characters: the
/// bytes are read one character at a time up to the first that is not one.
pub open spec fn utf8_valid_prefix(bytes: Seq<u8>) -> int
    decreases bytes.len(),
{
    if bytes.len() == 0 || !valid_first_scalar(bytes) {
        0
    } else {
        proof {
            assert(pop_first_scalar(bytes).len() < bytes.len());
        }
        length_of_first_scalar(bytes) + utf8_valid_prefix(pop_first_scalar(bytes))
    }
}

/// Bytes are valid UTF-8 exactly when all of them are a valid prefix.
pub proof fn lemma_valid_prefix(bytes: Seq<u8>)
    ensures
        0 <= utf8_valid_prefix(bytes) <= bytes.len(),
        valid_utf8(bytes) <==> utf8_valid_prefix(bytes) == bytes.len(),
    decreases bytes.len(),
{
    if bytes.len() > 0 && valid_first_scalar(bytes) {
        assert(pop_first_scalar(bytes).len() < bytes.len());
        lemma_valid_prefix(pop_first_scalar(bytes));
    }
}

/// The length of the valid UTF-8 character that starts at `i`, or 0.
fn first_scalar_len(bytes: &[u8], i: usize) -> (n: usize)
    requires
        i < bytes@.len(),
    ensures
        n == (if valid_first_scalar(bytes@.skip(i as int)) { length_of_first_scalar(bytes@.skip(i as int)) } else { 0 }),
{
    let ghost s = bytes@.skip(i as int);
    let len = bytes.len();
    let b0 = bytes[i];
    assert(s[0] == b0);
    if b0 <= 0x7f {
        return 1;
    }
    if b0 >= 0x80 && b0 <= 0xbf {
        return 0;
    }
    if b0 >= 0xf8 {
        return 0;
    }
    let width: usize = if b0 <= 0xdf { 2 } else if b0 <= 0xef { 3 } else { 4 };
    if len - i < width {
        return 0;
    }
    let mut k: usize = 1;
    while k < width
        invariant
            1 <= k <= width <= 4,
            i + width <= len,
            len == bytes@.len(),
            s == bytes@.skip(i as int),
            forall|j: int| 1 <= j < k ==> is_continuation_byte(#[trigger] s[j]),
            s[0] == b0,
            0xc0 <= b0 <= 0xf7,
            width == (if b0 <= 0xdf { 2usize } else if b0 <= 0xef { 3usize } else { 4usize }),
        decreases width - k,
    {
        assert(s[k as int] == bytes@[i + k]);
        if bytes[i + k] < 0x80 || bytes[i + k] > 0xbf {
            return 0;
        }
        k = k + 1;
    }
    assert(s[1] == bytes@[i + 1]);
    let c1 = bytes[i + 1];
    if width == 2 {
        let cp: u32 = (((b0 & 0x1f) as u32) << 6) | ((c1 & 0x3f) as u32);
        assert(cp == codepoint_width_2(s[0], s[1]));
        assert(cp <= 0x7ff) by (bit_vector)
            requires
                cp == (((b0 & 0x1f) as u32) << 6) | ((c1 & 0x3f) as u32);
        return if cp >= 0x80 { 2 } else { 0 };
    }
    assert(s[2] == bytes@[i + 2]);
    let c2 = bytes[i + 2];
    if width == 3 {
        let cp: u32 = (((b0 & 0x0f) as u32) << 12) | (((c1 & 0x3f) as u32) << 6) | ((c2 & 0x3f) as u32);
        assert(cp == codepoint_width_3(s[0], s[1], s[2]));
        return if cp >= 0x800 && !(0xD800 <= cp && cp <= 0xDFFF) { 3 } else { 0 };
    }
    assert(s[3] == bytes@[i + 3]);
    let c3 = bytes[i + 3];
    let cp: u32 = (((b0 & 0x07) as u32) << 18) | (((c1 & 0x3f) as u32) << 12) | (((c2 & 0x3f) as u32) << 6)
        | ((c3 & 0x3f) as u32);
    assert(cp == codepoint_width_4(s[0], s[1], s[2], s[3]));
    proof {
        assert(cp <= 0x1fffff) by (bit_vector)
            requires
                cp == (((b0 & 0x07) as u32) << 18) | (((c1 & 0x3f) as u32) << 12) | (((c2 & 0x3f) as u32) << 6)
                    | ((c3 & 0x3f) as u32);
    }
    if cp >= 0x10000 && cp <= 0x10ffff { 4 } else { 0 }
}

/// How many leading bytes are whole, valid UTF-8 characters; see
/// `utf8_valid_prefix`.
pub fn utf8_valid_up_to(bytes: &[u8]) -> (n: usize)
    ensures
        n == utf8_valid_prefix(bytes@),
{
    let mut i: usize = 0;
    assert(bytes@.skip(0) =~= bytes@);
    loop
        invariant
            i <= bytes@.len(),
            utf8_valid_prefix(bytes@) == i + utf8_valid_prefix(bytes@.skip(i as int)),
        ensures
            i == utf8_valid_prefix(bytes@),
        decreases bytes@.len() - i,
    {
        if i == bytes.len() {
            assert(bytes@.skip(i as int).len() == 0);
            break;
        }
        let n = first_scalar_len(bytes, i);
        if n == 0 {
            break;
        }
        proof {
            let s = bytes@.skip(i as int);
            assert(pop_first_scalar(s) =~= bytes@.skip(i + n));
        }
        i = i + n;
    }
    i
}

} // verus!

verus! {

// ---------------------------------------------------------------------------
// Queries
// ---------------------------------------------------------------------------

/// "host query <op> failed while sizing its answer: <code>"
pub open spec fn sizing_failure(op: i32, code: i32) -> Seq<char> {
    seq!['h', 'o', 's', 't', ' ', 'q', 'u', 'e', 'r', 'y', ' '] + spec_signed_decimal(op as int)
        + seq![' ', 'f', 'a', 'i', 'l', 'e', 'd', ' ', 'w', 'h', 'i', 'l', 'e', ' ', 's', 'i', 'z', 'i', 'n', 'g', ' ', 'i', 't', 's', ' ',
        'a', 'n', 's', 'w', 'e', 'r', ':', ' '] + spec_signed_decimal(code as int)
}

/// "host query <op> failed while copying its answer: <code>"
pub open spec fn copying_failure(op: i32, code: i32) -> Seq<char> {
    seq!['h', 'o', 's', 't', ' ', 'q', 'u', 'e', 'r', 'y', ' '] + spec_signed_decimal(op as int)
        + seq![' ', 'f', 'a', 'i', 'l', 'e', 'd', ' ', 'w', 'h', 'i', 'l', 'e', ' ', 'c', 'o', 'p', 'y', 'i', 'n', 'g', ' ', 'i', 't', 's',
        ' ', 'a', 'n', 's', 'w', 'e', 'r', ':', ' '] + spec_signed_decimal(code as int)
}

/// "host query <op> answered with invalid UTF-8 at byte <n>"
pub open spec fn encoding_failure(op: i32, at: nat) -> Seq<char> {
    seq!['h', 'o', 's', 't', ' ', 'q', 'u', 'e', 'r', 'y', ' '] + spec_signed_decimal(op as int)
        + seq![' ', 'a', 'n', 's', 'w', 'e', 'r', 'e', 'd', ' ', 'w', 'i', 't', 'h', ' ', 'i', 'n', 'v', 'a', 'l', 'i', 'd', ' ', 'U', 'T',
        'F', '-', '8', ' ', 'a', 't', ' ', 'b', 'y', 't', 'e', ' '] + spec_decimal(at)
}

/// The first step of a query: the host said how many bytes its answer has,
/// or failed with a negative code.
pub fn query_answer_size(op: i32, needed: i32) -> (size: Result<usize, String>)
    ensures
        match size {
            Ok(n) => needed >= 0 && n == needed,
            Err(e) => needed < 0 && e@ == sizing_failure(op, needed),
        },
{
    if needed < 0 {
        proof {
            reveal_strlit("host query ");
            reveal_strlit(" failed while sizing its answer: ");
        }
        let head = concat("host query ", signed_decimal(op as i64).as_str());
        let middle = concat(head.as_str(), " failed while sizing its answer: ");
        let message = concat(middle.as_str(), signed_decimal(needed as i64).as_str());
        assert(message@ =~= sizing_failure(op, needed));
        return Err(message);
    }
    Ok(needed as usize)
}

/// The second step of a query: the host copied `written` bytes of its
/// answer into `buffer`, or failed with a negative code. The answer is the
/// text of those bytes, which must be UTF-8.
pub fn query_answer(op: i32, buffer: Vec<u8>, written: i32) -> (answer: Result<String, String>)
    ensures
        written < 0 ==> (answer matches Err(e) && e@ == copying_failure(op, written)),
        written >= 0 ==> ({
            let bytes = buffer@.take(if written < buffer@.len() { written as int } else { buffer@.len() as int });
            match answer {
                Ok(t) => valid_utf8(bytes) && t@ == decode_utf8(bytes),
                Err(e) => !valid_utf8(bytes) && e@ == encoding_failure(op, utf8_valid_prefix(bytes) as nat),
            }
        }),
{
    if written < 0 {
        proof {
            reveal_strlit("host query ");
            reveal_strlit(" failed while copying its answer: ");
        }
        let head = concat("host query ", signed_decimal(op as i64).as_str());
        let middle = concat(head.as_str(), " failed while copying its answer: ");
        let message = concat(middle.as_str(), signed_decimal(written as i64).as_str());
        assert(message@ =~= copying_failure(op, written));
        return Err(message);
    }
    let mut bytes = buffer;
    bytes.truncate(written as usize);
    let ghost kept = bytes@;
    assert(kept =~= buffer@.take(if written < buffer@.len() { written as int } else { buffer@.len() as int }));
    let valid = utf8_valid_up_to(bytes.as_slice());
    proof {
        lemma_valid_prefix(kept);
    }
    if valid < bytes.len() {
        proof {
            reveal_strlit("host query ");
            reveal_strlit(" answered with invalid UTF-8 at byte ");
        }
        let head = concat("host query ", signed_decimal(op as i64).as_str());
        let middle = concat(head.as_str(), " answered with invalid UTF-8 at byte ");
        let message = concat(middle.as_str(), decimal(valid as u64).as_str());
        assert(message@ =~= encoding_failure(op, utf8_valid_prefix(kept) as nat));
        return Err(message);
    }
    match string_from_utf8(bytes) {
        Ok(text) => Ok(text),
        Err(_) => {
            assert(false);
            Err(String::new())
        },
    }
}

/// The text of a picked file, from its bytes as the host's descriptor gave
/// them or the error reading them: the text when the bytes are UTF-8,
/// otherwise std's description of where they stop being UTF-8.
pub fn read_picked_file(bytes: Result<Vec<u8>, String>) -> (text: Result<String, String>)
    ensures
        match bytes {
            Ok(b) => match text {
                Ok(t) => valid_utf8(b@) && t@ == decode_utf8(b@),
                Err(_) => !valid_utf8(b@),
            },
            Err(e) => (text matches Err(m) && m@ == e@),
        },
{
    match bytes {
        Ok(b) => match string_from_utf8(b) {
            Ok(t) => Ok(t),
            Err(error) => Err(utf8_error_text(&error)),
        },
        Err(e) => Err(e),
    }
}

} // verus!
