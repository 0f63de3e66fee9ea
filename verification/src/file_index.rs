//! Files found by the system file locator: the arguments of a lookup and the
//! reading of its output, one path per line.
use vstd::prelude::*;
use vstd::string::*;
use vstd::utf8::{decode_utf8, valid_utf8};

use crate::text::{chars_of, trim, trimmed};

verus! {

/// The last component of `path` as `Path::file_name` gives it (lossily
/// converted to text), or `None` where it gives none.
pub uninterp spec fn spec_path_file_name(path: Seq<char>) -> Option<Seq<char>>;

/// A plain file name: not empty, not `.` or `..`, and free of `/`, `\` and
/// `:`, so that every platform reads it as one normal component.
pub open spec fn plain_file_name(n: Seq<char>) -> bool {
    &&& n.len() > 0
    &&& n != seq!['.']
    &&& n != seq!['.', '.']
    &&& forall|i: int| 0 <= i < n.len() ==> n[i] != '/' && n[i] != '\\' && n[i] != ':'
}

/// A path that no platform reads as having a drive, share or device
/// prefix: free of `\` and `:`, and not starting with two slashes.
pub open spec fn unprefixed_path(p: Seq<char>) -> bool {
    &&& forall|i: int| 0 <= i < p.len() ==> p[i] != '\\' && p[i] != ':'
    &&& !(p.len() >= 2 && p[0] == '/' && p[1] == '/')
}

/// A normal last component: not empty, not `.` or `..`, and free of the
/// separators `/` and `\` (a `:` in it is an ordinary character).
pub open spec fn normal_component(n: Seq<char>) -> bool {
    &&& n.len() > 0
    &&& n != seq!['.']
    &&& n != seq!['.', '.']
    &&& forall|i: int| 0 <= i < n.len() ==> n[i] != '/' && n[i] != '\\'
}

/// A path without `\` that does not start with two slashes: neither a
/// share nor a device prefix can stand at its start, and a drive prefix
/// (a letter and `:`) ends before the first `/`.
pub open spec fn slash_separated(p: Seq<char>) -> bool {
    &&& forall|i: int| 0 <= i < p.len() ==> p[i] != '\\'
    &&& !(p.len() >= 2 && p[0] == '/' && p[1] == '/')
}

/// The text of an optional string.
pub open spec fn text_option(r: Option<String>) -> Option<Seq<char>> {
    match r {
        Some(s) => Some(s@),
        None => None,
    }
}

/// Calls `std::path::Path::file_name` on `path` and converts the component
/// with `OsStr::to_string_lossy`. The contract names the result
/// (`spec_path_file_name` of the path's characters) and states the documented
/// case of a path that ends in a plain file name: that name is the result, as
/// for "foo.txt" or "tmp/foo.txt", also where the name holds a `:`, as in
/// "man3/File::Spec.3perl.gz". The rules for other paths (trailing `.` and
/// `..`, `\`, platform prefixes) are left unstated.
#[verifier::external_body]
fn path_file_name(path: &str) -> (r: Option<String>)
    ensures
        match r {
            Some(n) => spec_path_file_name(path@) == Some(n@),
            None => spec_path_file_name(path@) is None,
        },
        plain_file_name(path@) ==> text_option(r) == Some(path@),
        forall|d: Seq<char>, n: Seq<char>| #![trigger d + seq!['/'] + n] path@ == d + seq!['/'] + n && unprefixed_path(path@) && plain_file_name(n) ==> text_option(r) == Some(n),
        forall|d: Seq<char>, n: Seq<char>| #![trigger d + seq!['/'] + n] path@ == d + seq!['/'] + n && slash_separated(path@) && normal_component(n) ==> text_option(r) == Some(n),
{
    match std::path::Path::new(path).file_name() {
        Some(n) => Some(n.to_string_lossy().into_owned()),
        None => None,
    }
}

/// The text that `String::from_utf8_lossy` makes of `bytes`.
pub uninterp spec fn spec_utf8_lossy(bytes: Seq<u8>) -> Seq<char>;

/// Calls `String::from_utf8_lossy`. The contract names the result
/// (`spec_utf8_lossy` of the bytes) and states what its documentation
/// promises of valid input: valid UTF-8 is decoded as it is. Where the
/// replacement characters go in invalid input is left unstated.
#[verifier::external_body]
fn utf8_lossy(bytes: &[u8]) -> (r: String)
    ensures
        r@ == spec_utf8_lossy(bytes@),
        valid_utf8(bytes@) ==> r@ == decode_utf8(bytes@),
{
    String::from_utf8_lossy(bytes).into_owned()
}

/// The name shown for a file at `path`: its last component, or the whole
/// path where it has none.
pub open spec fn file_display_name(path: Seq<char>) -> Seq<char> {
    match spec_path_file_name(path) {
        Some(n) => n,
        None => path,
    }
}

/// A file result: its path and the name shown for it.
#[derive(Clone, Debug)]
pub struct AppFile {
    pub path: String,
    pub name: String,
}

impl AppFile {
    /// The result for the file at `path_str`.
    pub fn from_path_str(path_str: &str) -> (r: AppFile)
        ensures
            r.path@ == path_str@,
            r.name@ == file_display_name(path_str@),
            plain_file_name(path_str@) ==> r.name@ == path_str@,
            forall|d: Seq<char>, n: Seq<char>|
                #![trigger d + seq!['/'] + n]
                path_str@ == d + seq!['/'] + n && unprefixed_path(path_str@) && plain_file_name(n)
                    ==> r.name@ == n,
            forall|d: Seq<char>, n: Seq<char>|
                #![trigger d + seq!['/'] + n]
                path_str@ == d + seq!['/'] + n && slash_separated(path_str@) && normal_component(n)
                    ==> r.name@ == n,
    {
        let name = match path_file_name(path_str) {
            Some(n) => n,
            None => String::from_str(path_str),
        };
        AppFile { path: String::from_str(path_str), name }
    }

    /// The path as the file list shows it, without whitespace at its ends.
    pub fn path_label(&self) -> (r: String)
        ensures
            r@ == trimmed(self.path@),
    {
        trim(self.path.as_str())
    }

    /// A copy of this result.
    pub fn duplicate(&self) -> (r: AppFile)
        ensures
            r == *self,
    {
        AppFile { path: self.path.clone(), name: self.name.clone() }
    }
}

/// The position of the first line feed in `s` at or after `k`, or the length
/// of `s` when there is none.
pub open spec fn line_end(s: Seq<char>, k: int) -> int
    decreases s.len() - k,
{
    if k < 0 || k >= s.len() {
        s.len() as int
    } else if s[k] == '\n' {
        k
    } else {
        line_end(s, k + 1)
    }
}

/// A line that ended in a line feed loses one carriage return before it.
pub open spec fn strip_cr(line: Seq<char>) -> Seq<char> {
    if line.len() > 0 && line.last() == '\r' {
        line.drop_last()
    } else {
        line
    }
}

/// The lines of `s` from position `start` on, as `str::lines` splits them:
/// at each line feed, with a carriage return right before it dropped, and no
/// empty line after a final line feed.
pub open spec fn lines_from(s: Seq<char>, start: int) -> Seq<Seq<char>>
    decreases s.len() - start,
{
    if start < 0 || start >= s.len() {
        seq![]
    } else {
        let e = line_end(s, start);
        if e >= s.len() {
            seq![s.subrange(start, s.len() as int)]
        } else {
            proof {
                lemma_line_end_bounds(s, start);
            }
            seq![strip_cr(s.subrange(start, e))] + lines_from(s, e + 1)
        }
    }
}

/// The lines of `s`.
pub open spec fn text_lines(s: Seq<char>) -> Seq<Seq<char>> {
    lines_from(s, 0)
}

/// A line ends at or after where it starts, and at a line feed or at the end.
pub proof fn lemma_line_end_bounds(s: Seq<char>, k: int)
    requires
        0 <= k,
    ensures
        k <= line_end(s, k) <= s.len() || k > s.len(),
        line_end(s, k) < s.len() ==> s[line_end(s, k)] == '\n',
        forall|t: int| k <= t < line_end(s, k) ==> s[t] != '\n',
    decreases s.len() - k,
{
    if k < s.len() && s[k] != '\n' {
        lemma_line_end_bounds(s, k + 1);
    }
}

/// With no line feed in `[start, i)`, the line from `start` ends where the
/// line from `i` does.
proof fn lemma_line_end_skip(s: Seq<char>, start: int, i: int)
    requires
        0 <= start <= i <= s.len(),
        forall|t: int| start <= t < i ==> s[t] != '\n',
    ensures
        line_end(s, start) == line_end(s, i),
    decreases i - start,
{
    if start < i {
        lemma_line_end_skip(s, start + 1, i);
    }
}

/// `r` holds one result per line of `lines`, in order: the line as path,
/// its display name as name.
pub open spec fn files_for_lines(r: Seq<AppFile>, lines: Seq<Seq<char>>) -> bool {
    &&& r.len() == lines.len()
    &&& forall|k: int|
        0 <= k < r.len() ==> (#[trigger] r[k]).path@ == lines[k] && r[k].name@ == file_display_name(
            lines[k],
        )
}

/// The file results for the output of a lookup: one per line of the text
/// that the bytes decode to, in order; output in valid UTF-8 is read as its
/// decoding.
pub fn parse_locate_output(stdout: &[u8]) -> (r: Vec<AppFile>)
    ensures
        files_for_lines(r@, text_lines(spec_utf8_lossy(stdout@))),
        valid_utf8(stdout@) ==> files_for_lines(r@, text_lines(decode_utf8(stdout@))),
{
    let text = utf8_lossy(stdout);
    let chars = chars_of(text.as_str());
    let ghost s = text@;
    let ghost mut done: Seq<Seq<char>> = seq![];
    let mut r: Vec<AppFile> = Vec::new();
    let n = chars.len();
    let mut start: usize = 0;
    let mut i: usize = 0;
    while i < n
        invariant
            n == s.len(),
            chars@ == s,
            text@ == s,
            start <= i <= n,
            forall|t: int| start <= t < i ==> s[t] != '\n',
            text_lines(s) == done + lines_from(s, start as int),
            r@.len() == done.len(),
            forall|k: int|
                0 <= k < r@.len() ==> (#[trigger] r@[k]).path@ == done[k] && r@[k].name@
                    == file_display_name(done[k]),
        decreases n - i,
    {
        if chars[i] == '\n' {
            proof {
                lemma_line_end_skip(s, start as int, i as int);
                assert(line_end(s, start as int) == i);
            }
            let end = if i > start && chars[i - 1] == '\r' {
                i - 1
            } else {
                i
            };
            let line = text.as_str().substring_char(start, end);
            let f = AppFile::from_path_str(line);
            proof {
                assert(line@ == strip_cr(s.subrange(start as int, i as int)));
                assert(lines_from(s, start as int) == seq![strip_cr(s.subrange(start as int, i as int))]
                    + lines_from(s, i + 1));
                done = done.push(line@);
                assert(text_lines(s) =~= done + lines_from(s, i + 1));
            }
            r.push(f);
            start = i + 1;
        }
        i += 1;
    }
    if start < n {
        let line = text.as_str().substring_char(start, n);
        let f = AppFile::from_path_str(line);
        proof {
            lemma_line_end_skip(s, start as int, n as int);
            done = done.push(line@);
            assert(text_lines(s) =~= done);
        }
        r.push(f);
    } else {
        assert(text_lines(s) =~= done);
    }
    r
}

/// Looks up files through the system file locator.
pub struct FileIndex;

impl FileIndex {
    /// The file index; it keeps no state of its own.
    pub fn new() -> (r: Self) {
        FileIndex
    }

    /// The arguments for the locator: at most ten results for `query`, or no
    /// lookup at all for an empty query.
    pub fn locate_args(&self, query: &str) -> (r: Option<Vec<String>>)
        ensures
            r is None <==> query@.len() == 0,
            r matches Some(a) ==> a@.len() == 3 && a@[0]@ == "--limit"@ && a@[1]@ == "10"@
                && a@[2]@ == query@,
    {
        if query.is_empty() {
            return None;
        }
        let mut a: Vec<String> = Vec::new();
        a.push(String::from_str("--limit"));
        a.push(String::from_str("10"));
        a.push(String::from_str(query));
        Some(a)
    }

    /// The files for `query`, given what the locator wrote for it: nothing for
    /// an empty query, else one result per line of its output.
    pub fn search(&self, query: &str, locate_output: &[u8]) -> (r: Vec<AppFile>)
        ensures
            query@.len() == 0 ==> r@.len() == 0,
            query@.len() > 0 ==> files_for_lines(r@, text_lines(spec_utf8_lossy(locate_output@))),
            query@.len() > 0 && valid_utf8(locate_output@) ==> files_for_lines(
                r@,
                text_lines(decode_utf8(locate_output@)),
            ),
    {
        if query.is_empty() {
            return Vec::new();
        }
        parse_locate_output(locate_output)
    }
}

/// The text holding each of `ls` followed by a line feed.
pub open spec fn joined_lines(ls: Seq<Seq<char>>) -> Seq<char>
    decreases ls.len(),
{
    if ls.len() == 0 {
        seq![]
    } else {
        ls[0] + seq!['\n'] + joined_lines(ls.drop_first())
    }
}

/// A line that survives a round trip: no line feed in it, no carriage return
/// at its end.
pub open spec fn plain_line(l: Seq<char>) -> bool {
    &&& forall|i: int| 0 <= i < l.len() ==> l[i] != '\n'
    &&& !(l.len() > 0 && l.last() == '\r')
}

/// Line ends shift with a prefix.
proof fn lemma_line_end_shift(p: Seq<char>, b: Seq<char>, t: int)
    requires
        0 <= t,
    ensures
        line_end(p + b, p.len() + t) == p.len() + line_end(b, t),
    decreases b.len() - t,
{
    if t < b.len() && b[t] != '\n' {
        lemma_line_end_shift(p, b, t + 1);
    }
}

/// The lines after a prefix are the lines of what follows it.
proof fn lemma_lines_shift(p: Seq<char>, b: Seq<char>, t: int)
    requires
        0 <= t,
    ensures
        lines_from(p + b, p.len() + t) == lines_from(b, t),
    decreases b.len() - t,
{
    let s = p + b;
    if t < b.len() {
        lemma_line_end_shift(p, b, t);
        lemma_line_end_bounds(b, t);
        let e = line_end(b, t);
        if e < b.len() {
            lemma_lines_shift(p, b, e + 1);
            assert(s.subrange(p.len() + t, p.len() + e) =~= b.subrange(t, e));
        } else {
            assert(s.subrange(p.len() + t, s.len() as int) =~= b.subrange(t, b.len() as int));
        }
    }
}

/// Paths written one per line, each followed by a line feed, read back as
/// the same paths.
pub proof fn law_lines_round_trip(ls: Seq<Seq<char>>)
    requires
        forall|k: int| 0 <= k < ls.len() ==> plain_line(#[trigger] ls[k]),
    ensures
        text_lines(joined_lines(ls)) == ls,
    decreases ls.len(),
{
    if ls.len() > 0 {
        let l = ls[0];
        let rest = ls.drop_first();
        assert forall|k: int| 0 <= k < rest.len() implies plain_line(#[trigger] rest[k]) by {
            assert(rest[k] == ls[k + 1]);
        }
        law_lines_round_trip(rest);
        let p = l + seq!['\n'];
        let s = joined_lines(ls);
        assert(s == p + joined_lines(rest));
        assert(plain_line(l));
        lemma_line_end_skip(s, 0, l.len() as int);
        assert(line_end(s, 0) == l.len());
        lemma_lines_shift(p, joined_lines(rest), 0);
        assert(s.subrange(0, l.len() as int) =~= l);
        assert(text_lines(s) =~= seq![l] + text_lines(joined_lines(rest)));
        assert(ls =~= seq![l] + rest);
    }
}

} // verus!
