//! Mapping of EVM instructions back to Solidity source positions.
//!
//! The lookup of a program counter in the compiler's source maps is done
//! by the Foundry tooling at the edge of the program; this module turns the
//! byte range it yields into a line and a column.

use vstd::prelude::*;
use vstd::string::StringSliceAdditionalSpecFns;

verus! {

/// A position in a Solidity source file.
#[derive(Debug, Clone)]
pub struct SourceLocation {
    /// Absolute path of the source file.
    pub path: String,
    /// 1-based line.
    pub line: i64,
    /// 1-based column, counted in bytes.
    pub column: i64,
    /// Length in bytes of the mapped source range.
    pub length: usize,
}

impl SourceLocation {
    /// A copy of the location.
    pub fn duplicate(&self) -> (r: SourceLocation)
        ensures
            r == *self,
    {
        SourceLocation {
            path: self.path.clone(),
            line: self.line,
            column: self.column,
            length: self.length,
        }
    }
}

/// Number of `\n` bytes in `b[..k]`.
pub open spec fn newline_count(b: Seq<u8>, k: int) -> int
    decreases k,
{
    if k <= 0 {
        0
    } else {
        newline_count(b, k - 1) + if b[k - 1] == 10u8 {
            1int
        } else {
            0int
        }
    }
}

/// Start of the line that contains position `k`: just past the last `\n` in
/// `b[..k]`, or 0.
pub open spec fn line_start(b: Seq<u8>, k: int) -> int
    decreases k,
{
    if k <= 0 {
        0
    } else if b[k - 1] == 10u8 {
        k
    } else {
        line_start(b, k - 1)
    }
}

/// The 1-based line and column of byte `offset` of `b`, the offset being
/// clamped to the end of `b`.
pub open spec fn line_col(b: Seq<u8>, offset: int) -> (int, int) {
    let off = if offset < b.len() {
        offset
    } else {
        b.len() as int
    };
    (1 + newline_count(b, off), off - line_start(b, off) + 1)
}

proof fn lemma_line_start(b: Seq<u8>, k: int)
    requires
        0 <= k,
    ensures
        0 <= line_start(b, k) <= k,
        0 <= newline_count(b, k) <= k,
    decreases k,
{
    if k > 0 {
        lemma_line_start(b, k - 1);
    }
}

proof fn lemma_newline_count_filter(b: Seq<u8>, k: int)
    requires
        0 <= k <= b.len(),
    ensures
        newline_count(b, k) == b.subrange(0, k).filter(|c: u8| c == 10u8).len(),
    decreases k,
{
    reveal(Seq::filter);
    if k > 0 {
        lemma_newline_count_filter(b, k - 1);
        assert(b.subrange(0, k).drop_last() =~= b.subrange(0, k - 1));
        assert(b.subrange(0, k).last() == b[k - 1]);
    } else {
        assert(b.subrange(0, 0) =~= Seq::<u8>::empty());
    }
}

proof fn lemma_line_start_last_newline(b: Seq<u8>, k: int)
    requires
        0 <= k <= b.len(),
    ensures
        ({
            let p = line_start(b, k);
            &&& (p == 0 ==> forall|i: int| 0 <= i < k ==> b[i] != 10u8)
            &&& (p > 0 ==> p <= k && b[p - 1] == 10u8)
            &&& forall|i: int| p <= i < k ==> b[i] != 10u8
        }),
    decreases k,
{
    if k > 0 && b[k - 1] != 10u8 {
        lemma_line_start_last_newline(b, k - 1);
    }
}

/// Where a byte offset lies: with the offset clamped to the end of `b` at
/// `o`, the line is one more than the number of `\n` bytes before `o`, and
/// the column counts from just past the last `\n` before `o` (or from the
/// start when there is none); both are at least 1.
pub proof fn law_line_col_counts_newlines(b: Seq<u8>, offset: int)
    requires
        0 <= offset,
    ensures
        ({
            let o = if offset < b.len() {
                offset
            } else {
                b.len() as int
            };
            let (line, col) = line_col(b, offset);
            let p = o - col + 1;
            &&& line == 1 + b.subrange(0, o).filter(|c: u8| c == 10u8).len()
            &&& line >= 1 && col >= 1
            &&& 0 <= p <= o
            &&& (p == 0 ==> forall|i: int| 0 <= i < o ==> b[i] != 10u8)
            &&& (p > 0 ==> b[p - 1] == 10u8)
            &&& forall|i: int| p <= i < o ==> b[i] != 10u8
        }),
{
    let o = if offset < b.len() {
        offset
    } else {
        b.len() as int
    };
    lemma_newline_count_filter(b, o);
    lemma_line_start(b, o);
    lemma_line_start_last_newline(b, o);
}

/// The 1-based line and column of byte `offset` in `source`; an offset past
/// the end is taken as the end.
pub fn byte_offset_to_line_col(source: &str, offset: usize) -> (r: (i64, i64))
    requires
        source.spec_bytes().len() < 0x7fff_ffff_ffff_ffff,
    ensures
        (r.0 as int, r.1 as int) == line_col(source.spec_bytes(), offset as int),
{
    let bytes = source.as_bytes();
    let n = bytes.len();
    let off = if offset < n {
        offset
    } else {
        n
    };
    let mut line: i64 = 1;
    let mut last_newline: usize = 0;
    let mut i: usize = 0;
    while i < off
        invariant
            bytes@ == source.spec_bytes(),
            n == bytes@.len(),
            n < 0x7fff_ffff_ffff_ffff,
            off <= n,
            i <= off,
            line == 1 + newline_count(bytes@, i as int),
            last_newline == line_start(bytes@, i as int),
        decreases off - i,
    {
        proof {
            lemma_line_start(bytes@, i as int);
        }
        if bytes[i] == 10u8 {
            line = line + 1;
            last_newline = i + 1;
        }
        i = i + 1;
    }
    proof {
        lemma_line_start(bytes@, off as int);
    }
    let column = (off - last_newline) as i64 + 1;
    (line, column)
}

/// The source location of the byte range `offset..offset + length` of
/// `source`, the text of the file at `path`.
pub fn source_location(path: String, source: &str, offset: usize, length: usize) -> (r:
    SourceLocation)
    requires
        source.spec_bytes().len() < 0x7fff_ffff_ffff_ffff,
    ensures
        r.path@ == path@,
        (r.line as int, r.column as int) == line_col(source.spec_bytes(), offset as int),
        r.length == length,
{
    let (line, column) = byte_offset_to_line_col(source, offset);
    SourceLocation { path, line, column, length }
}

/// The path that `Path::join` gives for `path` under `root`: `path` itself
/// when it is absolute.
pub uninterp spec fn joined_path(root: Seq<char>, path: Seq<char>) -> Seq<char>;

/// `std::path::Path::join`: `path` under `root`, or `path` when it is
/// absolute (on Unix, when it starts with `/`), which replaces `root`.
#[verifier::external_body]
pub(crate) fn path_join(root: &str, path: &str) -> (r: String)
    ensures
        r@ == joined_path(root@, path@),
        path@.len() > 0 && path@[0] == '/' ==> r@ == path@,
{
    std::path::Path::new(root).join(path).to_string_lossy().to_string()
}

/// The path `p` written back from the components `Path::components` reads
/// in it: repeated separators, `.` parts (but a leading one) and a trailing
/// separator are dropped. Two paths are equal as `Path`s exactly when these
/// texts are equal.
pub uninterp spec fn normal_path(p: Seq<char>) -> Seq<char>;

/// `std::path::Path::components`, collected back into a path: the path as
/// `Path` equality sees it.
#[verifier::external_body]
pub(crate) fn normalize_path(p: &str) -> (r: String)
    ensures
        r@ == normal_path(p@),
{
    std::path::Path::new(p).components().collect::<std::path::PathBuf>().to_string_lossy().to_string()
}

/// The source location of the byte range `offset..offset + length` of
/// `source`, the text of the file at `path` (relative to `project_root`
/// unless absolute): what the compiler's source map entry of a step
/// points at.
pub fn step_source_location(
    project_root: &str,
    path: &str,
    source: &str,
    offset: usize,
    length: usize,
) -> (r: SourceLocation)
    requires
        source.spec_bytes().len() < 0x7fff_ffff_ffff_ffff,
    ensures
        r.path@ == joined_path(project_root@, path@),
        path@.len() > 0 && path@[0] == '/' ==> r.path@ == path@,
        (r.line as int, r.column as int) == line_col(source.spec_bytes(), offset as int),
        r.length == length,
{
    let full = path_join(project_root, path);
    source_location(full, source, offset, length)
}

} // verus!
