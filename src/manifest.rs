use vstd::prelude::*;
use vstd::string::StringSliceAdditionalSpecFns;
use vstd::utf8::{decode_utf8, encode_utf8, valid_utf8};
use crate::search::{find_key, lemma_find_key};
use crate::text::{base32_decode, base32_decoded, base32_encode, base32_of, text_eq, utf8_text};
use crate::wire::{
    be4, be8, field, push_be4, push_be8, push_field, read_be4, read_field_at, read_u64_at,
    take_field, take_u64,
};

verus! {

/// The manifest format this library writes and accepts.
pub const VERSION: u32 = 1;

/// An opaque, content-derived identifier of a blob in the transport.
pub struct ContentId {
    pub bytes: Vec<u8>,
}

impl View for ContentId {
    type V = Seq<u8>;

    open spec fn view(&self) -> Seq<u8> {
        self.bytes@
    }
}

impl ContentId {
    pub fn new(bytes: Vec<u8>) -> (r: ContentId)
        ensures
            r@ == bytes@,
    {
        ContentId { bytes }
    }

    pub fn duplicate(&self) -> (r: ContentId)
        ensures
            r@ == self@,
    {
        let mut v: Vec<u8> = Vec::new();
        let mut i: usize = 0;
        while i < self.bytes.len()
            invariant
                i <= self.bytes.len(),
                v@ == self.bytes@.take(i as int),
            decreases self.bytes.len() - i,
        {
            v.push(self.bytes[i]);
            i += 1;
            assert(v@ =~= self.bytes@.take(i as int));
        }
        assert(self.bytes@.take(i as int) =~= self.bytes@);
        ContentId { bytes: v }
    }
}

/// One file offered for transfer.
pub struct File {
    pub name: String,
    pub icon: String,
    pub size: u64,
    pub hash: ContentId,
}

pub ghost struct FileView {
    pub name: Seq<char>,
    pub icon: Seq<char>,
    pub size: u64,
    pub hash: Seq<u8>,
}

impl View for File {
    type V = FileView;

    open spec fn view(&self) -> FileView {
        FileView { name: self.name@, icon: self.icon@, size: self.size, hash: self.hash@ }
    }
}

/// The published unit: a format version and the files, at most one per name.
pub struct Files {
    pub version: u32,
    pub files: Vec<File>,
}

pub ghost struct FilesView {
    pub version: u32,
    pub files: Seq<FileView>,
}

impl View for Files {
    type V = FilesView;

    open spec fn view(&self) -> FilesView {
        FilesView { version: self.version, files: self.files@.map_values(|f: File| f@) }
    }
}

/// Why a manifest text or byte string was refused.
#[derive(Debug, Clone, Copy, PartialEq, Eq, Structural)]
pub enum ManifestError {
    Malformed,
    VersionMismatch { expected: u32, found: u32 },
}

/// No two files share a name.
pub open spec fn names_unique(s: Seq<FileView>) -> bool {
    forall|i: int, j: int| 0 <= i < j < s.len() ==> s[i].name != s[j].name
}

/// Whether some file is called `name`.
pub open spec fn has_name(s: Seq<FileView>, name: Seq<char>) -> bool {
    exists|i: int| 0 <= i < s.len() && s[i].name == name
}

/// A file's name, the key that files are found by.
pub open spec fn file_key(f: FileView) -> Seq<char> {
    f.name
}

/// The first position at or after `i` of a file called `name`, or -1.
pub open spec fn find_from(s: Seq<FileView>, name: Seq<char>, i: int) -> int {
    find_key(s, |f: FileView| file_key(f), name, i)
}

/// The position of the file called `name`, or -1.
pub open spec fn find_name(s: Seq<FileView>, name: Seq<char>) -> int {
    find_from(s, name, 0)
}

/// Adds `f`, replacing a file of the same name where there is one.
pub open spec fn upsert(s: Seq<FileView>, f: FileView) -> Seq<FileView> {
    let k = find_name(s, f.name);
    if k < 0 {
        s.push(f)
    } else {
        s.update(k, f)
    }
}

/// Drops the file called `name`, if there is one.
pub open spec fn remove_name(s: Seq<FileView>, name: Seq<char>) -> Seq<FileView> {
    let k = find_name(s, name);
    if k < 0 {
        s
    } else {
        s.remove(k)
    }
}

pub proof fn lemma_find_from(s: Seq<FileView>, name: Seq<char>, i: int)
    requires
        0 <= i,
    ensures
        -1 <= find_from(s, name, i) < s.len(),
        find_from(s, name, i) >= 0 ==> find_from(s, name, i) >= i && s[find_from(s, name, i)].name
            == name,
        find_from(s, name, i) < 0 <==> (forall|k: int| i <= k < s.len() ==> s[k].name != name),
        forall|k: int| i <= k < find_from(s, name, i) ==> s[k].name != name,
{
    lemma_find_key(s, |f: FileView| file_key(f), name, i);
}

/// `find_name` finds a file exactly when one has the name.
pub proof fn lemma_find_name(s: Seq<FileView>, name: Seq<char>)
    ensures
        -1 <= find_name(s, name) < s.len(),
        find_name(s, name) >= 0 ==> s[find_name(s, name)].name == name,
        find_name(s, name) >= 0 <==> has_name(s, name),
{
    lemma_find_from(s, name, 0);
}

pub proof fn lemma_upsert_unique(s: Seq<FileView>, f: FileView)
    requires
        names_unique(s),
    ensures
        names_unique(upsert(s, f)),
        has_name(upsert(s, f), f.name),
        forall|n: Seq<char>| n != f.name ==> (has_name(upsert(s, f), n) == has_name(s, n)),
{
    lemma_find_name(s, f.name);
    let r = upsert(s, f);
    let k = find_name(s, f.name);
    if k < 0 {
        assert(r[s.len() as int] == f);
    } else {
        assert(r[k] == f);
    }
    assert forall|n: Seq<char>| n != f.name implies (has_name(r, n) == has_name(s, n)) by {
        if has_name(s, n) {
            let i = choose|i: int| 0 <= i < s.len() && s[i].name == n;
            assert(r[i] == s[i]);
        }
        if has_name(r, n) {
            let i = choose|i: int| 0 <= i < r.len() && r[i].name == n;
            assert(s[i] == r[i]);
        }
    }
}

pub proof fn lemma_remove_unique(s: Seq<FileView>, name: Seq<char>)
    requires
        names_unique(s),
    ensures
        names_unique(remove_name(s, name)),
        !has_name(remove_name(s, name), name),
        forall|n: Seq<char>| n != name ==> (has_name(remove_name(s, name), n) == has_name(s, n)),
{
    lemma_find_name(s, name);
    let r = remove_name(s, name);
    let k = find_name(s, name);
    if k >= 0 {
        assert forall|i: int, j: int| 0 <= i < j < r.len() implies r[i].name != r[j].name by {
            let i2 = if i < k { i } else { i + 1 };
            let j2 = if j < k { j } else { j + 1 };
            assert(r[i] == s[i2] && r[j] == s[j2]);
        }
        assert forall|n: Seq<char>| n != name implies (has_name(r, n) == has_name(s, n)) by {
            if has_name(s, n) {
                let i = choose|i: int| 0 <= i < s.len() && s[i].name == n;
                if i < k {
                    assert(r[i] == s[i]);
                } else {
                    assert(r[i - 1] == s[i]);
                }
            }
            if has_name(r, n) {
                let i = choose|i: int| 0 <= i < r.len() && r[i].name == n;
                if i < k {
                    assert(s[i] == r[i]);
                } else {
                    assert(s[i + 1] == r[i]);
                }
            }
        }
        if has_name(r, name) {
            let i = choose|i: int| 0 <= i < r.len() && r[i].name == name;
            if i < k {
                assert(s[i] == r[i]);
            } else {
                assert(s[i + 1] == r[i]);
            }
        }
    }
}

/// The bytes of one file: name and icon as length-prefixed UTF-8, the size, the content id.
pub open spec fn file_bytes(f: FileView) -> Seq<u8> {
    field(encode_utf8(f.name)) + field(encode_utf8(f.icon)) + be8(f.size) + field(f.hash)
}

/// The bytes of the files, one after the other.
pub open spec fn files_bytes(s: Seq<FileView>) -> Seq<u8>
    decreases s.len(),
{
    if s.len() == 0 {
        Seq::empty()
    } else {
        file_bytes(s[0]) + files_bytes(s.drop_first())
    }
}

/// The byte form of a manifest: version, count of files, then the files.
pub open spec fn manifest_bytes(m: FilesView) -> Seq<u8> {
    be4(m.version) + be8(m.files.len() as u64) + files_bytes(m.files)
}

/// The text form of a manifest: the base32 text of its byte form.
pub open spec fn manifest_text(m: FilesView) -> Seq<char> {
    base32_of(manifest_bytes(m))
}

/// Splits length-prefixed UTF-8 text off the front of `s`.
pub open spec fn take_text(s: Seq<u8>) -> Option<(Seq<char>, Seq<u8>)> {
    match take_field(s) {
        None => None,
        Some((b, rest)) => if valid_utf8(b) {
            Some((decode_utf8(b), rest))
        } else {
            None
        },
    }
}

/// Splits one file off the front of `s`.
pub open spec fn take_file(s: Seq<u8>) -> Option<(FileView, Seq<u8>)> {
    match take_text(s) {
        None => None,
        Some((name, r1)) => match take_text(r1) {
            None => None,
            Some((icon, r2)) => match take_u64(r2) {
                None => None,
                Some((size, r3)) => match take_field(r3) {
                    None => None,
                    Some((hash, r4)) => Some(
                        (FileView { name, icon, size, hash }, r4),
                    ),
                },
            },
        },
    }
}

/// Reads `n` files from `s` into `acc`, a later file replacing an earlier one of the
/// same name; nothing may be left over.
pub open spec fn parse_files(s: Seq<u8>, n: nat, acc: Seq<FileView>) -> Option<Seq<FileView>>
    decreases n,
{
    if n == 0 {
        if s.len() == 0 {
            Some(acc)
        } else {
            None
        }
    } else {
        match take_file(s) {
            None => None,
            Some((f, rest)) => parse_files(rest, (n - 1) as nat, upsert(acc, f)),
        }
    }
}

/// What the byte form `b` decodes to. The version is read and checked before anything else.
pub open spec fn parse_manifest(b: Seq<u8>) -> Result<FilesView, ManifestError> {
    if b.len() < 4 {
        Err(ManifestError::Malformed)
    } else if read_be4(b) != VERSION {
        Err(ManifestError::VersionMismatch { expected: VERSION, found: read_be4(b) })
    } else {
        match take_u64(b.skip(4)) {
            None => Err(ManifestError::Malformed),
            Some((n, rest)) => match parse_files(rest, n as nat, Seq::empty()) {
                None => Err(ManifestError::Malformed),
                Some(files) => Ok(FilesView { version: VERSION, files }),
            },
        }
    }
}

/// `r` is what decoding the text `t` gives: where the base32 decoder refuses `t` it is
/// `Malformed`, and otherwise what the decoded bytes decode to. Where `t` is the base32
/// text of some bytes, those are the bytes decoded.
pub open spec fn text_decodes_to(t: Seq<char>, r: Result<FilesView, ManifestError>) -> bool {
    &&& match base32_decoded(t) {
        None => r == Err::<FilesView, ManifestError>(ManifestError::Malformed),
        Some(b) => r == parse_manifest(b),
    }
    &&& forall|b: Seq<u8>| #[trigger] base32_of(b) == t ==> r == parse_manifest(b)
}

/// Every length in the manifest fits the eight-byte prefix that carries it.
pub open spec fn lengths_fit(m: FilesView) -> bool {
    &&& m.files.len() <= u64::MAX
    &&& forall|i: int|
        0 <= i < m.files.len() ==> {
            &&& #[trigger] encode_utf8(m.files[i].name).len() <= u64::MAX
            &&& encode_utf8(m.files[i].icon).len() <= u64::MAX
            &&& m.files[i].hash.len() <= u64::MAX
        }
}

pub proof fn lemma_take_text(c: Seq<char>, rest: Seq<u8>)
    requires
        encode_utf8(c).len() <= u64::MAX,
    ensures
        take_text(field(encode_utf8(c)) + rest) == Some((c, rest)),
{
    vstd::utf8::encode_utf8_valid_utf8(c);
    vstd::utf8::encode_utf8_decode_utf8(c);
    crate::wire::lemma_take_field(encode_utf8(c), rest);
}

pub proof fn lemma_take_file(f: FileView, rest: Seq<u8>)
    requires
        encode_utf8(f.name).len() <= u64::MAX,
        encode_utf8(f.icon).len() <= u64::MAX,
        f.hash.len() <= u64::MAX,
    ensures
        take_file(file_bytes(f) + rest) == Some((f, rest)),
{
    let n = field(encode_utf8(f.name));
    let i = field(encode_utf8(f.icon));
    let z = be8(f.size);
    let h = field(f.hash);
    assert(file_bytes(f) + rest =~= n + (i + (z + (h + rest))));
    lemma_take_text(f.name, i + (z + (h + rest)));
    lemma_take_text(f.icon, z + (h + rest));
    crate::wire::lemma_read_be8(f.size, h + rest);
    crate::wire::lemma_take_field(f.hash, rest);
}

proof fn lemma_parse_files(s: Seq<FileView>, k: int)
    requires
        0 <= k <= s.len(),
        names_unique(s),
        lengths_fit(FilesView { version: VERSION, files: s }),
    ensures
        parse_files(files_bytes(s.skip(k)), (s.len() - k) as nat, s.take(k)) == Some(s),
    decreases s.len() - k,
{
    if k == s.len() {
        assert(s.skip(k) =~= Seq::<FileView>::empty());
        assert(s.take(k) =~= s);
    } else {
        let t = s.skip(k);
        assert(t[0] == s[k]);
        assert(t.drop_first() =~= s.skip(k + 1));
        assert(encode_utf8(s[k].name).len() <= u64::MAX);
        lemma_take_file(s[k], files_bytes(s.skip(k + 1)));
        lemma_find_from(s.take(k), s[k].name, 0);
        assert forall|j: int| 0 <= j < k implies s.take(k)[j].name != s[k].name by {
            assert(s.take(k)[j] == s[j]);
        }
        assert(upsert(s.take(k), s[k]) =~= s.take(k + 1));
        lemma_parse_files(s, k + 1);
    }
}

/// Decoding the byte form of a manifest of the current version gives it back, file for file.
pub proof fn lemma_bytes_round_trip(m: FilesView)
    requires
        m.version == VERSION,
        names_unique(m.files),
        lengths_fit(m),
    ensures
        parse_manifest(manifest_bytes(m)) == Ok::<FilesView, ManifestError>(m),
{
    let b = manifest_bytes(m);
    let tail = be8(m.files.len() as u64) + files_bytes(m.files);
    assert(b =~= be4(m.version) + tail);
    crate::wire::lemma_read_be4(m.version, tail);
    crate::wire::lemma_read_be8(m.files.len() as u64, files_bytes(m.files));
    assert(m.files.skip(0) =~= m.files);
    assert(m.files.take(0) =~= Seq::<FileView>::empty());
    lemma_parse_files(m.files, 0);
}

/// Round trip: decoding the text of a manifest of the current version, with unique
/// names, gives back that manifest.
pub proof fn lemma_round_trip(m: FilesView, r: Result<FilesView, ManifestError>)
    requires
        m.version == VERSION,
        names_unique(m.files),
        lengths_fit(m),
        text_decodes_to(manifest_text(m), r),
    ensures
        r == Ok::<FilesView, ManifestError>(m),
{
    lemma_bytes_round_trip(m);
    assert(base32_of(manifest_bytes(m)) == manifest_text(m));
}

/// Version check: a manifest whose version is not the current one never decodes; the
/// result is the version mismatch, naming both versions.
pub proof fn lemma_version_mismatch(m: FilesView, r: Result<FilesView, ManifestError>)
    requires
        m.version != VERSION,
        text_decodes_to(manifest_text(m), r),
    ensures
        parse_manifest(manifest_bytes(m)) == Err::<FilesView, ManifestError>(
            ManifestError::VersionMismatch { expected: VERSION, found: m.version },
        ),
        r == Err::<FilesView, ManifestError>(
            ManifestError::VersionMismatch { expected: VERSION, found: m.version },
        ),
{
    let tail = be8(m.files.len() as u64) + files_bytes(m.files);
    assert(manifest_bytes(m) =~= be4(m.version) + tail);
    crate::wire::lemma_read_be4(m.version, tail);
    assert(base32_of(manifest_bytes(m)) == manifest_text(m));
}

proof fn lemma_files_bytes_push(a: Seq<FileView>, f: FileView)
    ensures
        files_bytes(a.push(f)) == files_bytes(a) + file_bytes(f),
    decreases a.len(),
{
    if a.len() == 0 {
        assert(a.push(f).drop_first() =~= Seq::<FileView>::empty());
        assert(a.push(f)[0] == f);
        assert(files_bytes(a.push(f)) == file_bytes(f) + files_bytes(Seq::<FileView>::empty()));
        assert(files_bytes(Seq::<FileView>::empty()) =~= Seq::<u8>::empty());
        assert(files_bytes(a) =~= Seq::<u8>::empty());
        assert(files_bytes(a.push(f)) =~= files_bytes(a) + file_bytes(f));
    } else {
        assert(a.push(f).drop_first() =~= a.drop_first().push(f));
        assert(a.push(f)[0] == a[0]);
        lemma_files_bytes_push(a.drop_first(), f);
        let x = file_bytes(a[0]);
        let y = files_bytes(a.drop_first());
        assert(x + (y + file_bytes(f)) =~= (x + y) + file_bytes(f));
    }
}

/// Position of the file called `name` in `files`, if any.
fn find_index(files: &Vec<File>, name: &str) -> (r: Option<usize>)
    ensures
        match r {
            None => find_name(files@.map_values(|f: File| f@), name@) < 0,
            Some(k) => find_name(files@.map_values(|f: File| f@), name@) == k,
        },
{
    let ghost s = files@.map_values(|f: File| f@);
    let mut i: usize = 0;
    while i < files.len()
        invariant
            i <= files.len(),
            s == files@.map_values(|f: File| f@),
            find_from(s, name@, 0) == find_from(s, name@, i as int),
        decreases files.len() - i,
    {
        if text_eq(files[i].name.as_str(), name) {
            return Some(i);
        }
        i += 1;
    }
    None
}

/// Writes one file's bytes.
fn push_file(out: &mut Vec<u8>, f: &File)
    ensures
        final(out)@ == old(out)@ + file_bytes(f@),
{
    push_field(out, f.name.as_str().as_bytes());
    push_field(out, f.icon.as_str().as_bytes());
    push_be8(out, f.size);
    push_field(out, f.hash.bytes.as_slice());
    assert(final(out)@ =~= old(out)@ + file_bytes(f@));
}

/// Reads length-prefixed UTF-8 text at `pos`.
fn read_text_at(b: &[u8], pos: usize) -> (r: Option<(String, usize)>)
    requires
        pos <= b.len(),
    ensures
        match r {
            None => take_text(b@.skip(pos as int)) is None,
            Some((t, next)) => next <= b.len() && take_text(b@.skip(pos as int)) == Some(
                (t@, b@.skip(next as int)),
            ),
        },
{
    match read_field_at(b, pos) {
        None => None,
        Some((v, next)) => match utf8_text(v) {
            None => None,
            Some(t) => Some((t, next)),
        },
    }
}

/// Reads one file at `pos`.
fn read_file_at(b: &[u8], pos: usize) -> (r: Option<(File, usize)>)
    requires
        pos <= b.len(),
    ensures
        match r {
            None => take_file(b@.skip(pos as int)) is None,
            Some((f, next)) => next <= b.len() && take_file(b@.skip(pos as int)) == Some(
                (f@, b@.skip(next as int)),
            ),
        },
{
    let (name, after_name): (String, usize) = match read_text_at(b, pos) {
        None => return None,
        Some(x) => x,
    };
    let (icon, after_icon): (String, usize) = match read_text_at(b, after_name) {
        None => return None,
        Some(x) => x,
    };
    let (size, after_size): (u64, usize) = match read_u64_at(b, after_icon) {
        None => return None,
        Some(x) => x,
    };
    let (hash, after_hash): (Vec<u8>, usize) = match read_field_at(b, after_size) {
        None => return None,
        Some(x) => x,
    };
    Some((File { name, icon, size, hash: ContentId { bytes: hash } }, after_hash))
}

impl Files {
    /// At most one file per name.
    pub open spec fn wf(&self) -> bool {
        names_unique(self@.files)
    }

    /// An empty manifest of the current version.
    pub fn new() -> (r: Files)
        ensures
            r.wf(),
            r@.version == VERSION,
            r@.files.len() == 0,
    {
        let r = Files { version: VERSION, files: Vec::new() };
        assert(r@.files =~= Seq::<FileView>::empty());
        r
    }

    /// The number of files.
    pub fn len(&self) -> (r: usize)
        ensures
            r == self@.files.len(),
    {
        self.files.len()
    }

    /// Adds `file`; a file of the same name is replaced.
    pub fn add_file(&mut self, file: File)
        requires
            old(self).wf(),
        ensures
            final(self).wf(),
            final(self)@ == (FilesView { version: old(self)@.version, files: upsert(old(self)@.files, file@) }),
    {
        let ghost s = self@.files;
        proof {
            lemma_find_name(s, file@.name);
            lemma_upsert_unique(s, file@);
        }
        match find_index(&self.files, file.name.as_str()) {
            Some(k) => {
                self.files[k] = file;
            },
            None => {
                self.files.push(file);
            },
        }
        assert(self@.files =~= upsert(s, file@));
    }

    /// Drops the file called `name`, if there is one.
    pub fn remove_file(&mut self, name: &str)
        requires
            old(self).wf(),
        ensures
            final(self).wf(),
            final(self)@ == (FilesView { version: old(self)@.version, files: remove_name(old(self)@.files, name@) }),
    {
        let ghost s = self@.files;
        proof {
            lemma_find_name(s, name@);
            lemma_remove_unique(s, name@);
        }
        match find_index(&self.files, name) {
            Some(k) => {
                self.files.remove(k);
            },
            None => {},
        }
        assert(self@.files =~= remove_name(s, name@));
    }

    /// Whether a file called `name` is listed.
    pub fn has_file(&self, name: &str) -> (r: bool)
        ensures
            r == has_name(self@.files, name@),
    {
        proof {
            lemma_find_name(self@.files, name@);
        }
        find_index(&self.files, name).is_some()
    }

    /// The file called `name`, if there is one.
    pub fn get(&self, name: &str) -> (r: Option<&File>)
        ensures
            match r {
                None => !has_name(self@.files, name@),
                Some(f) => has_name(self@.files, name@) && f@.name == name@ && self@.files[find_name(
                    self@.files,
                    name@,
                )] == f@,
            },
    {
        proof {
            lemma_find_name(self@.files, name@);
        }
        match find_index(&self.files, name) {
            None => None,
            Some(k) => Some(&self.files[k]),
        }
    }

    /// The byte form: version, count, then each file.
    pub fn to_bytes(&self) -> (r: Vec<u8>)
        ensures
            r@ == manifest_bytes(self@),
    {
        let mut out: Vec<u8> = Vec::new();
        push_be4(&mut out, self.version);
        push_be8(&mut out, self.files.len() as u64);
        let ghost head = out@;
        let ghost s = self@.files;
        let mut i: usize = 0;
        while i < self.files.len()
            invariant
                i <= self.files.len(),
                s == self@.files,
                out@ == head + files_bytes(s.take(i as int)),
            decreases self.files.len() - i,
        {
            push_file(&mut out, &self.files[i]);
            proof {
                lemma_files_bytes_push(s.take(i as int), s[i as int]);
                assert(s.take(i as int).push(s[i as int]) =~= s.take(i + 1));
            }
            i += 1;
        }
        assert(s.take(i as int) =~= s);
        assert(out@ =~= manifest_bytes(self@));
        out
    }

    /// Decodes the byte form. The version is checked before any file is read; a
    /// result is either the whole manifest or an error.
    pub fn from_bytes(b: &[u8]) -> (r: Result<Files, ManifestError>)
        ensures
            match r {
                Ok(m) => m.wf() && parse_manifest(b@) == Ok::<FilesView, ManifestError>(m@),
                Err(e) => parse_manifest(b@) == Err::<FilesView, ManifestError>(e),
            },
    {
        if b.len() < 4 {
            return Err(ManifestError::Malformed);
        }
        let version: u32 = (b[0] as u32) << 24u32 | (b[1] as u32) << 16u32 | (b[2] as u32) << 8u32
            | (b[3] as u32);
        if version != VERSION {
            return Err(ManifestError::VersionMismatch { expected: VERSION, found: version });
        }
        let (n, start): (u64, usize) = match read_u64_at(b, 4) {
            None => return Err(ManifestError::Malformed),
            Some(x) => x,
        };
        let mut files = Files::new();
        assert(files@.files =~= Seq::<FileView>::empty());
        let mut pos: usize = start;
        let mut k: u64 = 0;
        while k < n
            invariant
                pos <= b.len(),
                k <= n,
                files.wf(),
                files@.version == VERSION,
                parse_files(b@.skip(pos as int), (n - k) as nat, files@.files) == parse_files(
                    b@.skip(start as int),
                    n as nat,
                    Seq::empty(),
                ),
                take_u64(b@.skip(4)) == Some((n, b@.skip(start as int))),
                b@.len() >= 4,
                read_be4(b@) == VERSION,
            decreases n - k,
        {
            match read_file_at(b, pos) {
                None => {
                    assert(parse_files(b@.skip(pos as int), (n - k) as nat, files@.files) is None);
                    return Err(ManifestError::Malformed);
                },
                Some((f, next)) => {
                    files.add_file(f);
                    pos = next;
                    k += 1;
                },
            }
        }
        if pos != b.len() {
            return Err(ManifestError::Malformed);
        }
        assert(b@.skip(pos as int).len() == 0);
        Ok(files)
    }

    /// The text form: base32 of the byte form, in ASCII, short enough to decode again.
    pub fn to_string(&self) -> (r: String)
        requires
            manifest_bytes(self@).len() <= usize::MAX / 512,
        ensures
            r@ == manifest_text(self@),
            encode_utf8(r@).len() == r@.len(),
            r@.len() <= usize::MAX / 8,
    {
        let b = self.to_bytes();
        let r = base32_encode(b.as_slice());
        proof {
            vstd::utf8::is_ascii_chars_encode_utf8(r@);
            assert((b@.len() + 4) / 5 * 8 <= usize::MAX / 8) by (nonlinear_arith)
                requires
                    b@.len() <= usize::MAX / 512,
            ;
        }
        r
    }

    /// Decodes the text form; text that is not base32 is `Malformed`.
    pub fn from_str(s: &str) -> (r: Result<Files, ManifestError>)
        requires
            s.spec_bytes().len() <= usize::MAX / 8,
        ensures
            match r {
                Ok(m) => m.wf() && text_decodes_to(s@, Ok::<FilesView, ManifestError>(m@)),
                Err(e) => text_decodes_to(s@, Err::<FilesView, ManifestError>(e)),
            },
    {
        match base32_decode(s) {
            Err(_) => Err(ManifestError::Malformed),
            Ok(b) => Files::from_bytes(b.as_slice()),
        }
    }
}

} // verus!
