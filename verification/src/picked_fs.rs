//! File access for documents the user picked.
//!
//! The document picker hands back `file://docs` URIs and descriptors rather
//! than ordinary paths, and the application sandbox cannot open those paths
//! directly, so paths that come out of the picker are tagged:
//!
//! * `dir:<uri>`  - a picked directory, listed through the host.
//! * `file:<uri>` - a file inside a picked directory, opened by URI.
//! * `fd:<fd>`    - a file the host already opened for the picker.
//!
//! A file under a picked directory is asked for as `dir:<root uri>/<name>`,
//! the root joined with the name, rather than under the tag the listing
//! gave it. The listing therefore records what it learned, keyed by that
//! joined path, and later lookups resolve through the record. Paths are
//! compared the way `Path` compares them: by their components.

use vstd::prelude::*;
use crate::text::{
    chars_of, concat, has_prefix, parse_i32, spec_parse_int, spec_strip_prefix, strip_prefix, text_between, text_of,
};

verus! {

// ---------------------------------------------------------------------------
// Tags
// ---------------------------------------------------------------------------

pub open spec fn dir_tag() -> Seq<char> {
    seq!['d', 'i', 'r', ':']
}

pub open spec fn file_tag() -> Seq<char> {
    seq!['f', 'i', 'l', 'e', ':']
}

pub open spec fn fd_tag() -> Seq<char> {
    seq!['f', 'd', ':']
}

/// `path` without the tag, when it carries it.
pub fn tagged(path: &str, tag: &[char]) -> (rest: Option<String>)
    ensures
        match rest {
            Some(r) => spec_strip_prefix(path@, tag@) == Some(r@),
            None => spec_strip_prefix(path@, tag@) is None,
        },
{
    let chars = chars_of(path);
    if has_prefix(chars.as_slice(), tag) {
        Some(text_between(chars.as_slice(), tag.len(), chars.len()))
    } else {
        None
    }
}

/// The URI of a picked directory.
pub fn directory_uri(path: &str) -> (uri: Option<String>)
    ensures
        match uri {
            Some(u) => spec_strip_prefix(path@, dir_tag()) == Some(u@),
            None => spec_strip_prefix(path@, dir_tag()) is None,
        },
{
    let tag: [char; 4] = ['d', 'i', 'r', ':'];
    assert(tag@ =~= dir_tag());
    tagged(path, &tag)
}

/// The URI of a file inside a picked directory.
pub fn file_uri(path: &str) -> (uri: Option<String>)
    ensures
        match uri {
            Some(u) => spec_strip_prefix(path@, file_tag()) == Some(u@),
            None => spec_strip_prefix(path@, file_tag()) is None,
        },
{
    let tag: [char; 5] = ['f', 'i', 'l', 'e', ':'];
    assert(tag@ =~= file_tag());
    tagged(path, &tag)
}

/// The descriptor a `fd:` path names.
pub open spec fn spec_descriptor(path: Seq<char>) -> Option<i32> {
    match spec_strip_prefix(path, fd_tag()) {
        Some(rest) => match spec_parse_int(rest, i32::MIN as int, i32::MAX as int) {
            Some(fd) => Some(fd as i32),
            None => None,
        },
        None => None,
    }
}

/// The descriptor of a file the host opened for the picker.
pub fn descriptor(path: &str) -> (fd: Option<i32>)
    ensures
        fd == spec_descriptor(path@),
{
    let tag: [char; 3] = ['f', 'd', ':'];
    assert(tag@ =~= fd_tag());
    match tagged(path, &tag) {
        Some(rest) => parse_i32(rest.as_str()),
        None => None,
    }
}

/// Whether the path names a single picked file.
pub open spec fn spec_is_tagged_file(path: Seq<char>) -> bool {
    spec_strip_prefix(path, file_tag()) is Some || spec_descriptor(path) is Some
}

/// Whether the path names a single picked file, by URI or by descriptor.
pub fn is_tagged_file(path: &str) -> (tagged_file: bool)
    ensures
        tagged_file == spec_is_tagged_file(path@),
{
    file_uri(path).is_some() || descriptor(path).is_some()
}

// ---------------------------------------------------------------------------
// Paths as `Path` compares them
// ---------------------------------------------------------------------------

/// The characters of each component.
pub open spec fn comps(v: Seq<Vec<char>>) -> Seq<Seq<char>> {
    Seq::new(v.len(), |i: int| v[i]@)
}

/// The components of the part of `path` from `start` on, where `first` says
/// whether nothing came before: separators delimit them, repeated ones and a
/// trailing one count for nothing, and "." is dropped except as the very
/// first component.
pub open spec fn components_from(path: Seq<char>, start: int, first: bool) -> Seq<Seq<char>>
    decreases path.len() - start,
{
    if start < 0 || start >= path.len() {
        Seq::empty()
    } else {
        let end = crate::text::next_index_of(path, '/', start);
        proof {
            crate::text::lemma_next_index_of(path, '/', start);
        }
        let part = path.subrange(start, end);
        let rest = if end < path.len() { components_from(path, end + 1, false) } else { Seq::empty() };
        if part.len() == 0 || (part == seq!['.'] && !first) {
            rest
        } else {
            seq![part] + rest
        }
    }
}

/// The components of `path`: a leading separator is the root, written as
/// "/", followed by the rest.
pub open spec fn path_components(path: Seq<char>) -> Seq<Seq<char>> {
    if path.len() > 0 && path[0] == '/' {
        seq![seq!['/']] + components_from(path, 1, false)
    } else {
        components_from(path, 0, true)
    }
}

/// The components of `path` from `start` on; see `components_from`.
fn components_at(chars: &[char], start: usize, first: bool) -> (parts: Vec<Vec<char>>)
    requires
        start <= chars@.len(),
    ensures
        comps(parts@) == components_from(chars@, start as int, first),
    decreases chars@.len() - start,
{
    if start >= chars.len() {
        let parts: Vec<Vec<char>> = Vec::new();
        assert(comps(parts@) =~= Seq::<Seq<char>>::empty());
        return parts;
    }
    proof {
        crate::text::lemma_next_index_of(chars@, '/', start as int);
    }
    let end = crate::text::find_char(chars, '/', start);
    let mut part: Vec<char> = Vec::new();
    let mut i = start;
    while i < end
        invariant
            start <= i <= end <= chars@.len(),
            part@ == chars@.subrange(start as int, i as int),
        decreases end - i,
    {
        part.push(chars[i]);
        proof {
            assert(part@ =~= chars@.subrange(start as int, i + 1));
        }
        i = i + 1;
    }
    let rest = if end < chars.len() {
        components_at(chars, end + 1, false)
    } else {
        let none: Vec<Vec<char>> = Vec::new();
        assert(comps(none@) =~= Seq::<Seq<char>>::empty());
        assert(components_from(chars@, end + 1, false) == Seq::<Seq<char>>::empty());
        none
    };
    let dot = part.len() == 1 && part[0] == '.';
    assert(dot == (part@ == seq!['.'])) by {
        if part@ == seq!['.'] {
            assert(part@.len() == 1);
        }
        if dot {
            assert(part@ =~= seq!['.']);
        }
    }
    if part.len() == 0 || (dot && !first) {
        rest
    } else {
        let mut parts: Vec<Vec<char>> = Vec::new();
        let ghost head = part@;
        parts.push(part);
        let mut rest = rest;
        let ghost tail = comps(rest@);
        parts.append(&mut rest);
        proof {
            assert(comps(parts@) =~= seq![head] + tail);
        }
        parts
    }
}

/// The components of `path`; see `path_components`.
pub fn components(path: &str) -> (parts: Vec<Vec<char>>)
    ensures
        comps(parts@) == path_components(path@),
{
    let chars = chars_of(path);
    if chars.len() > 0 && chars[0] == '/' {
        let mut parts: Vec<Vec<char>> = Vec::new();
        let mut root: Vec<char> = Vec::new();
        root.push('/');
        let ghost head = root@;
        parts.push(root);
        let mut rest = components_at(chars.as_slice(), 1, false);
        let ghost tail = comps(rest@);
        parts.append(&mut rest);
        proof {
            assert(head =~= seq!['/']);
            assert(comps(parts@) =~= seq![seq!['/']] + tail);
        }
        parts
    } else {
        components_at(chars.as_slice(), 0, true)
    }
}

/// `base` joined with `name`, as `Path::join` does: an absolute name stands
/// for itself, otherwise a separator is put between them unless the base is
/// empty or already ends with one.
pub open spec fn spec_join(base: Seq<char>, name: Seq<char>) -> Seq<char> {
    if name.len() > 0 && name[0] == '/' {
        name
    } else if base.len() == 0 || base.last() == '/' {
        base + name
    } else {
        base + seq!['/'] + name
    }
}

/// `base` joined with `name`; see `spec_join`.
pub fn join(base: &str, name: &str) -> (path: String)
    ensures
        path@ == spec_join(base@, name@),
{
    let name_chars = chars_of(name);
    if name_chars.len() > 0 && name_chars[0] == '/' {
        return name.to_owned();
    }
    let base_chars = chars_of(base);
    if base_chars.len() == 0 || base_chars[base_chars.len() - 1] == '/' {
        concat(base, name)
    } else {
        let slash = text_of(&['/']);
        let with_slash = concat(base, slash.as_str());
        let path = concat(with_slash.as_str(), name);
        assert(path@ =~= spec_join(base@, name@));
        path
    }
}

/// Whether two component lists are the same.
fn same_components(a: &Vec<Vec<char>>, b: &Vec<Vec<char>>) -> (same: bool)
    ensures
        same == (comps(a@) == comps(b@)),
{
    let ghost x = comps(a@);
    let ghost y = comps(b@);
    if a.len() != b.len() {
        assert(x.len() != y.len());
        return false;
    }
    let mut i: usize = 0;
    while i < a.len()
        invariant
            i <= a@.len(),
            a@.len() == b@.len(),
            x == comps(a@),
            y == comps(b@),
            forall|j: int| 0 <= j < i ==> x[j] == y[j],
        decreases a@.len() - i,
    {
        if !crate::text::same_chars(a[i].as_slice(), b[i].as_slice()) {
            assert(x[i as int] != y[i as int]);
            return false;
        }
        i = i + 1;
    }
    assert(x =~= y);
    true
}

} // verus!

verus! {

// ---------------------------------------------------------------------------
// What listings taught
// ---------------------------------------------------------------------------

/// What a listing learned about one entry.
pub struct PickedEntry {
    pub is_dir: bool,
    pub uri: String,
}

/// File metadata as the application reads it.
#[derive(Clone, Copy, PartialEq, Eq, Structural, Debug)]
pub struct Metadata {
    pub inode: u64,
    pub mtime_seconds: u64,
    pub mtime_nanos: u32,
    pub is_symlink: bool,
    pub is_dir: bool,
    pub len: u64,
    pub is_fifo: bool,
    pub is_executable: bool,
    pub is_writable: bool,
}

/// The metadata of anything behind the picker: the host tells nothing but
/// whether it is a directory, so the rest is that of a writable, empty,
/// never-modified regular entry.
pub open spec fn spec_picked_metadata(is_dir: bool) -> Metadata {
    Metadata {
        inode: 0,
        mtime_seconds: 0,
        mtime_nanos: 0,
        is_symlink: false,
        is_dir,
        len: 0,
        is_fifo: false,
        is_executable: false,
        is_writable: true,
    }
}

pub fn picked_metadata(is_dir: bool) -> (metadata: Metadata)
    ensures
        metadata == spec_picked_metadata(is_dir),
{
    Metadata {
        inode: 0,
        mtime_seconds: 0,
        mtime_nanos: 0,
        is_symlink: false,
        is_dir,
        len: 0,
        is_fifo: false,
        is_executable: false,
        is_writable: true,
    }
}

/// One recorded entry: the components of its path, whether it is a
/// directory, and its URI.
pub type RecordView = (Seq<Seq<char>>, bool, Seq<char>);

/// What the records say about the path with these components: the last
/// record of it wins.
pub open spec fn lookup(records: Seq<RecordView>, key: Seq<Seq<char>>) -> Option<(bool, Seq<char>)>
    decreases records.len(),
{
    if records.len() == 0 {
        None
    } else if records.last().0 == key {
        Some((records.last().1, records.last().2))
    } else {
        lookup(records.drop_last(), key)
    }
}

/// Overwriting the last record of a path changes what is known of that
/// path and of nothing else.
pub proof fn lemma_lookup_update(records: Seq<RecordView>, i: int, entry: RecordView)
    requires
        0 <= i < records.len(),
        records[i].0 == entry.0,
        forall|j: int| i < j < records.len() ==> (#[trigger] records[j]).0 != entry.0,
    ensures
        lookup(records.update(i, entry), entry.0) == Some((entry.1, entry.2)),
        forall|other: Seq<Seq<char>>| other != entry.0 ==> lookup(records.update(i, entry), other) == lookup(records, other),
    decreases records.len(),
{
    let updated = records.update(i, entry);
    if i == records.len() - 1 {
        assert(updated.drop_last() =~= records.drop_last());
        assert(updated.last() == entry);
        assert forall|other: Seq<Seq<char>>| other != entry.0 implies lookup(updated, other) == lookup(records, other) by {
            assert(records.last().0 == entry.0);
        }
    } else {
        let rest = records.drop_last();
        assert(updated.drop_last() =~= rest.update(i, entry));
        assert forall|j: int| i < j < rest.len() implies (#[trigger] rest[j]).0 != entry.0 by {
            assert(rest[j] == records[j]);
        }
        lemma_lookup_update(rest, i, entry);
        assert(records.last().0 != entry.0);
        assert(updated.last() == records.last());
        assert forall|other: Seq<Seq<char>>| other != entry.0 implies lookup(updated, other) == lookup(records, other) by {
            assert(lookup(rest.update(i, entry), other) == lookup(rest, other));
        }
    }
}

/// What a listing recorded for a path is what the path answers: a listed
/// entry is picked, a directory exactly when the listing said so, and read
/// through the URI the listing gave, however the path is spelled.
pub proof fn listed_entries_answer_for_their_paths(records: Seq<RecordView>, path: Seq<char>, is_dir: bool, uri: Seq<char>)
    requires
        lookup(records, path_components(path)) == Some((is_dir, uri)),
    ensures
        spec_is_picked(records, path),
        spec_picked_is_dir(records, path) == Some(is_dir),
        spec_picked_uri(records, path) == Some(uri),
{
}

/// Tagged paths are read and written through the host; everything else is
/// the real filesystem's. This holds what directory listings taught about
/// the paths under a picked directory.
pub struct OhosFs {
    picked: Vec<(Vec<Vec<char>>, PickedEntry)>,
}

pub open spec fn record_view(r: (Vec<Vec<char>>, PickedEntry)) -> RecordView {
    (comps(r.0@), r.1.is_dir, r.1.uri@)
}

impl View for OhosFs {
    type V = Seq<RecordView>;

    closed spec fn view(&self) -> Seq<RecordView> {
        Seq::new(self.picked@.len(), |i: int| record_view(self.picked@[i]))
    }
}

/// The URI to hand the host for a path: the one a listing recorded, or a
/// `dir:` root's own.
pub open spec fn spec_picked_uri(records: Seq<RecordView>, path: Seq<char>) -> Option<Seq<char>> {
    match lookup(records, path_components(path)) {
        Some((_, uri)) => Some(uri),
        None => spec_strip_prefix(path, dir_tag()),
    }
}

/// Whether a path names something behind the picker.
pub open spec fn spec_is_picked(records: Seq<RecordView>, path: Seq<char>) -> bool {
    spec_strip_prefix(path, dir_tag()) is Some || spec_is_tagged_file(path) || lookup(records, path_components(path)) is Some
}

/// Whether a picked path is a directory; `None` leaves the question to the
/// real filesystem.
pub open spec fn spec_picked_is_dir(records: Seq<RecordView>, path: Seq<char>) -> Option<bool> {
    match lookup(records, path_components(path)) {
        Some((is_dir, _)) => Some(is_dir),
        None => if spec_strip_prefix(path, dir_tag()) is Some {
            Some(true)
        } else if spec_is_tagged_file(path) {
            Some(false)
        } else {
            None
        },
    }
}

/// Where a picked file's bytes come from.
pub enum PickedSource {
    /// The descriptor the host opened for the picker.
    Descriptor(i32),
    /// The URI the host opens on request.
    Uri(String),
}

impl OhosFs {
    /// Nothing learned yet.
    pub fn new() -> (fs: Self)
        ensures
            fs@ == Seq::<RecordView>::empty(),
    {
        let fs = OhosFs { picked: Vec::new() };
        assert(fs@ =~= Seq::<RecordView>::empty());
        fs
    }

    /// What the records say about `path`.
    pub fn picked_entry(&self, path: &str) -> (entry: Option<PickedEntry>)
        ensures
            match entry {
                Some(e) => lookup(self@, path_components(path@)) == Some((e.is_dir, e.uri@)),
                None => lookup(self@, path_components(path@)) is None,
            },
    {
        let key = components(path);
        let ghost k = comps(key@);
        let mut i = self.picked.len();
        assert(self@.take(i as int) =~= self@);
        while i > 0
            invariant
                i <= self.picked@.len(),
                self@.len() == self.picked@.len(),
                k == comps(key@),
                k == path_components(path@),
                lookup(self@, k) == lookup(self@.take(i as int), k),
            decreases i,
        {
            i = i - 1;
            assert(self@.take(i + 1).drop_last() =~= self@.take(i as int));
            assert(self@.take(i + 1).last() == record_view(self.picked@[i as int]));
            if same_components(&self.picked[i].0, &key) {
                return Some(PickedEntry { is_dir: self.picked[i].1.is_dir, uri: self.picked[i].1.uri.clone() });
            }
        }
        None
    }

    /// Whether `path` names something behind the picker.
    pub fn is_picked(&self, path: &str) -> (picked: bool)
        ensures
            picked == spec_is_picked(self@, path@),
    {
        directory_uri(path).is_some() || is_tagged_file(path) || self.picked_entry(path).is_some()
    }

    /// The URI to hand the host for `path`.
    pub fn picked_uri(&self, path: &str) -> (uri: Option<String>)
        ensures
            match uri {
                Some(u) => spec_picked_uri(self@, path@) == Some(u@),
                None => spec_picked_uri(self@, path@) is None,
            },
    {
        match self.picked_entry(path) {
            Some(entry) => Some(entry.uri),
            None => directory_uri(path),
        }
    }

    /// Whether a picked `path` is a directory; `None` asks the real
    /// filesystem.
    pub fn is_dir(&self, path: &str) -> (is_dir: Option<bool>)
        ensures
            is_dir == spec_picked_is_dir(self@, path@),
    {
        match self.picked_entry(path) {
            Some(entry) => Some(entry.is_dir),
            None => {
                if directory_uri(path).is_some() {
                    Some(true)
                } else if is_tagged_file(path) {
                    Some(false)
                } else {
                    None
                }
            },
        }
    }

    /// Whether a picked `path` is a file; `None` asks the real filesystem.
    pub fn is_file(&self, path: &str) -> (is_file: Option<bool>)
        ensures
            is_file == match spec_picked_is_dir(self@, path@) {
                Some(d) => Some(!d),
                None => None,
            },
    {
        match self.picked_entry(path) {
            Some(entry) => Some(!entry.is_dir),
            None => {
                if is_tagged_file(path) {
                    Some(true)
                } else if directory_uri(path).is_some() {
                    Some(false)
                } else {
                    None
                }
            },
        }
    }

    /// The metadata of a picked `path`; `None` asks the real filesystem.
    pub fn metadata(&self, path: &str) -> (metadata: Option<Metadata>)
        ensures
            metadata == match spec_picked_is_dir(self@, path@) {
                Some(d) => Some(spec_picked_metadata(d)),
                None => None,
            },
    {
        match self.is_dir(path) {
            Some(is_dir) => Some(picked_metadata(is_dir)),
            None => None,
        }
    }

    /// A picked path stands for itself; `None` asks the real filesystem.
    pub fn canonicalize(&self, path: &str) -> (canonical: Option<String>)
        ensures
            match canonical {
                Some(c) => spec_is_picked(self@, path@) && c@ == path@,
                None => !spec_is_picked(self@, path@),
            },
    {
        if self.is_picked(path) {
            Some(path.to_owned())
        } else {
            None
        }
    }

    /// Where the bytes of a picked `path` come from: the picker's descriptor,
    /// or else the URI the records or the tag give; a path with neither is
    /// not a picked file.
    pub fn picked_source(&self, path: &str) -> (source: Result<PickedSource, String>)
        ensures
            match source {
                Ok(PickedSource::Descriptor(fd)) => spec_descriptor(path@) == Some(fd),
                Ok(PickedSource::Uri(uri)) => spec_descriptor(path@) is None && spec_picked_uri(self@, path@) == Some(uri@),
                Err(e) => spec_descriptor(path@) is None && spec_picked_uri(self@, path@) is None
                    && e@ == path@ + seq![' ', 'i', 's', ' ', 'n', 'o', 't', ' ', 'a', ' ', 'p', 'i', 'c', 'k', 'e', 'd', ' ', 'f', 'i', 'l', 'e'],
            },
    {
        if let Some(fd) = descriptor(path) {
            return Ok(PickedSource::Descriptor(fd));
        }
        match self.picked_uri(path) {
            Some(uri) => Ok(PickedSource::Uri(uri)),
            None => {
                proof {
                    reveal_strlit(" is not a picked file");
                }
                let message = concat(path, " is not a picked file");
                assert(message@ =~= path@ + seq![' ', 'i', 's', ' ', 'n', 'o', 't', ' ', 'a', ' ', 'p', 'i', 'c', 'k', 'e', 'd', ' ', 'f', 'i', 'l', 'e']);
                Err(message)
            },
        }
    }

    /// Record one entry a listing reported; a path recorded before is
    /// overwritten in place.
    fn record(&mut self, key: Vec<Vec<char>>, is_dir: bool, uri: String)
        ensures
            lookup(final(self)@, comps(key@)) == Some((is_dir, uri@)),
            forall|other: Seq<Seq<char>>| other != comps(key@) ==> lookup(final(self)@, other) == lookup(old(self)@, other),
    {
        let ghost before = self@;
        let ghost k = comps(key@);
        let ghost entry = (k, is_dir, uri@);
        let mut i = self.picked.len();
        assert(before.take(i as int) =~= before);
        while i > 0
            invariant
                i <= self.picked@.len(),
                self@ == before,
                before == old(self)@,
                before.len() == self.picked@.len(),
                k == comps(key@),
                entry == (k, is_dir, uri@),
                forall|j: int| i <= j < before.len() ==> (#[trigger] before[j]).0 != k,
            decreases i,
        {
            i = i - 1;
            assert(before[i as int] == record_view(self.picked@[i as int]));
            if same_components(&self.picked[i].0, &key) {
                self.picked.set(i, (key, PickedEntry { is_dir, uri }));
                proof {
                    assert(self@ =~= before.update(i as int, entry));
                    lemma_lookup_update(before, i as int, entry);
                    assert forall|other: Seq<Seq<char>>| other != k implies lookup(self@, other) == lookup(before, other) by {
                        assert(lookup(before.update(i as int, entry), other) == lookup(before, other));
                    }
                }
                return;
            }
        }
        self.picked.push((key, PickedEntry { is_dir, uri }));
        proof {
            assert(self@ =~= before.push(entry));
            assert(self@.drop_last() =~= before);
        }
    }

    /// A listing of the picked directory `dir` reported `entries`, as
    /// (name, is_directory, uri). Each entry is recorded under `dir` joined
    /// with its name, and those joined paths are the directory's children,
    /// in the order listed.
    pub fn record_listing(&mut self, dir: &str, entries: &[(String, bool, String)]) -> (children: Vec<String>)
        ensures
            children@.len() == entries@.len(),
            forall|i: int| 0 <= i < entries@.len() ==> #[trigger] children@[i]@ == spec_join(dir@, entries@[i].0@),
            forall|i: int| 0 <= i < entries@.len()
                && (forall|j: int| i < j < entries@.len() ==> path_components(spec_join(dir@, entries@[j].0@)) != path_components(spec_join(dir@, entries@[i].0@)))
                ==> lookup(final(self)@, path_components(#[trigger] spec_join(dir@, entries@[i].0@))) == Some((entries@[i].1, entries@[i].2@)),
            forall|other: Seq<Seq<char>>| (forall|i: int| 0 <= i < entries@.len() ==> other != path_components(#[trigger] spec_join(dir@, entries@[i].0@)))
                ==> lookup(final(self)@, other) == lookup(old(self)@, other),
    {
        let mut children: Vec<String> = Vec::new();
        let mut i: usize = 0;
        while i < entries.len()
            invariant
                i <= entries@.len(),
                children@.len() == i,
                forall|k: int| 0 <= k < i ==> #[trigger] children@[k]@ == spec_join(dir@, entries@[k].0@),
                forall|k: int| 0 <= k < i
                    && (forall|j: int| k < j < i ==> path_components(spec_join(dir@, entries@[j].0@)) != path_components(spec_join(dir@, entries@[k].0@)))
                    ==> lookup(self@, path_components(#[trigger] spec_join(dir@, entries@[k].0@))) == Some((entries@[k].1, entries@[k].2@)),
                forall|other: Seq<Seq<char>>| (forall|k: int| 0 <= k < i ==> other != path_components(#[trigger] spec_join(dir@, entries@[k].0@)))
                    ==> lookup(self@, other) == lookup(old(self)@, other),
            decreases entries@.len() - i,
        {
            let path = join(dir, entries[i].0.as_str());
            let key = components(path.as_str());
            let ghost k = comps(key@);
            let ghost before = self@;
            self.record(key, entries[i].1, entries[i].2.clone());
            proof {
                assert forall|m: int| 0 <= m < i + 1
                    && (forall|j: int| m < j < i + 1 ==> path_components(spec_join(dir@, entries@[j].0@)) != path_components(spec_join(dir@, entries@[m].0@)))
                    implies lookup(self@, path_components(#[trigger] spec_join(dir@, entries@[m].0@))) == Some((entries@[m].1, entries@[m].2@)) by {
                    if m < i {
                        assert(path_components(spec_join(dir@, entries@[i as int].0@)) != path_components(spec_join(dir@, entries@[m].0@)));
                    }
                }
            }
            children.push(path);
            i = i + 1;
        }
        children
    }
}

} // verus!
