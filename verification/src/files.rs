//! File errors and file kinds for saving and loading: what an error says, and
//! which files hold data in which encoding.

use crate::text::push_char;
use vstd::prelude::*;

verus! {

/// How a value is written to a file: as RON text, or as binary data.
#[derive(Debug, Clone, Copy)]
pub enum Encoding {
    Ron,
    Data,
}

/// What `Path::file_name` makes of a path: its last component, if it has
/// one that is not `..`.
pub uninterp spec fn path_file_name(path: Seq<char>) -> Option<Seq<char>>;

/// Calls `std::path::Path::file_name` on `path`, as text. The result is
/// named, not spelt out.
#[verifier::external_body]
fn file_name_of(path: &str) -> (r: Option<String>)
    ensures
        match r {
            Some(n) => path_file_name(path@) == Some(n@),
            None => path_file_name(path@) is None,
        },
{
    match std::path::Path::new(path).file_name() {
        Some(n) => Some(n.to_string_lossy().into_owned()),
        None => None,
    }
}

/// Whether `e` is a suffix of `s`.
pub open spec fn is_suffix(e: Seq<char>, s: Seq<char>) -> bool {
    e.len() <= s.len() && s.subrange(s.len() - e.len(), s.len() as int) == e
}

/// Whether `s` ends with `e`.
pub fn ends_with(s: &str, e: &str) -> (r: bool)
    ensures
        r == is_suffix(e@, s@),
{
    let n = s.unicode_len();
    let m = e.unicode_len();
    if m > n {
        return false;
    }
    let mut k: usize = 0;
    while k < m
        invariant
            n == s@.len(),
            m == e@.len(),
            m <= n,
            k <= m,
            forall|j: int| 0 <= j < k ==> s@[n - m + j] == #[trigger] e@[j],
        decreases m - k,
    {
        if s.get_char(n - m + k) != e.get_char(k) {
            assert(s@.subrange(n - m, n as int)[k as int] != e@[k as int]);
            return false;
        }
        k = k + 1;
    }
    assert(s@.subrange(n - m, n as int) =~= e@);
    true
}

impl Encoding {
    /// The file name ending of the encoding.
    pub open spec fn ending(self) -> Seq<char> {
        match self {
            Encoding::Ron => ".ron"@,
            Encoding::Data => ".data"@,
        }
    }

    /// Whether the file name of `path` ends with the encoding's ending; a
    /// path with no file name matches nothing.
    pub fn file_matches(&self, path: &str) -> (r: bool)
        ensures
            r == match path_file_name(path@) {
                Some(n) => is_suffix(self.ending(), n),
                None => false,
            },
    {
        let end = match self {
            Encoding::Ron => ".ron",
            Encoding::Data => ".data",
        };
        match file_name_of(path) {
            Some(name) => ends_with(name.as_str(), end),
            None => false,
        }
    }
}

/// What `<str as Debug>::fmt` writes for a string: the string quoted, with
/// special characters escaped.
pub uninterp spec fn debug_quoted(s: Seq<char>) -> Seq<char>;

/// Calls `<str as Debug>::fmt` through `format!`. The result is named, not
/// spelt out.
#[verifier::external_body]
fn quoted(s: &str) -> (r: String)
    ensures
        r@ == debug_quoted(s@),
{
    format!("{:?}", s)
}

/// Appends `t` to `s`.
fn push_text(s: &mut String, t: &str)
    ensures
        final(s)@ == old(s)@ + t@,
{
    let n = t.unicode_len();
    let mut k: usize = 0;
    while k < n
        invariant
            n == t@.len(),
            k <= n,
            s@ == old(s)@ + t@.take(k as int),
        decreases n - k,
    {
        push_char(s, t.get_char(k));
        k = k + 1;
        assert(s@ =~= old(s)@ + t@.take(k as int));
    }
    assert(t@.take(k as int) =~= t@);
}

/// An error from reading or writing a file: the path, a message, and
/// whether it was a missing resource (which is not reported).
pub struct FileErr {
    not_found: bool,
    path: String,
    msg: String,
}

/// A file error, as values.
pub struct FileErrView {
    pub not_found: bool,
    pub path: Seq<char>,
    pub msg: Seq<char>,
}

impl View for FileErr {
    type V = FileErrView;

    closed spec fn view(&self) -> FileErrView {
        FileErrView { not_found: self.not_found, path: self.path@, msg: self.msg@ }
    }
}

impl FileErr {
    /// An error of kind `kind` (the kind's name) at `path`. The flag marks a
    /// missing resource: it is set exactly for the kind `NotFound`.
    pub fn io(path: &str, kind: &str) -> (r: FileErr)
        ensures
            r@.not_found == (kind@ == "NotFound"@),
            r@.path == path@,
            r@.msg == kind@,
    {
        let mut p = String::new();
        push_text(&mut p, path);
        let mut m = String::new();
        push_text(&mut m, kind);
        let mut nf = String::new();
        push_text(&mut nf, "NotFound");
        FileErr { not_found: m == nf, path: p, msg: m }
    }

    /// An error at `path` with message `msg`, quoted.
    pub fn new(path: &str, msg: &str) -> (r: FileErr)
        ensures
            !r@.not_found,
            r@.path == path@,
            r@.msg == debug_quoted(msg@),
    {
        let mut p = String::new();
        push_text(&mut p, path);
        FileErr { not_found: false, path: p, msg: quoted(msg) }
    }

    /// The error with `ctx` put before its message.
    pub fn context(self, ctx: &str) -> (r: FileErr)
        ensures
            r@.not_found == self@.not_found,
            r@.path == self@.path,
            r@.msg == ctx@ + " : "@ + self@.msg,
    {
        let mut m = String::new();
        push_text(&mut m, ctx);
        push_text(&mut m, " : ");
        push_text(&mut m, self.msg.as_str());
        FileErr { not_found: self.not_found, path: self.path, msg: m }
    }

    /// Whether the error is about a missing resource (not worth reporting).
    pub fn not_found(&self) -> (r: bool)
        ensures
            r == self@.not_found,
    {
        self.not_found
    }

    /// The path of the file.
    pub fn path(&self) -> (r: &str)
        ensures
            r@ == self@.path,
    {
        self.path.as_str()
    }

    /// The message.
    pub fn msg(&self) -> (r: &str)
        ensures
            r@ == self@.msg,
    {
        self.msg.as_str()
    }
}

} // verus!
