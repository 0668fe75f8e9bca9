//! Local variables of the Solidity function that contains the current line,
//! read from the declarations in its source text.
//!
//! The enclosing function is the nearest line at or above the current one
//! that holds `function `; it ends at the line where its braces balance.
//! A line of the body declares a local when it begins with an elementary
//! type (or a capitalized contract type) followed by a name. Locals
//! declared above the current line are matched, most recent first, with
//! the stack items from the top: a best-effort guess at their values.

use vstd::prelude::*;
use crate::fmt::{dec_u64_chars, lit_chars, push_chars, push_lit, string_of};
use crate::text::{
    char_is_alphanumeric, char_is_uppercase, contains, contains_lit, find, lemma_find,
    starts_with, starts_with_lit, str_chars, trim, trim_start, trimmed, unicode_alphanumeric,
    unicode_uppercase,
};
use crate::trace::TraceStep;
use crate::variables::{leaf, typed_chars, typed_text, Variable};
use crate::word::{dec_text, val, Word};

verus! {

/// The lines of `s`, as `str::lines` splits them: at each `\n`, dropping a
/// `\r` before it; a final line ending adds no empty line.
pub open spec fn lines_of(s: Seq<char>) -> Seq<Seq<char>>
    decreases s.len(),
{
    if s.len() == 0 {
        seq![]
    } else {
        proof {
            lemma_find(s, '\n');
        }
        match find(s, '\n') {
            Some(k) => {
                let l = s.subrange(0, k);
                seq![
                    if l.len() > 0 && l.last() == '\r' {
                        l.drop_last()
                    } else {
                        l
                    },
                ] + lines_of(s.skip(k + 1))
            },
            None => seq![s],
        }
    }
}

proof fn lemma_lines_len(s: Seq<char>)
    ensures
        forall|i: int| 0 <= i < lines_of(s).len() ==> (#[trigger] lines_of(s)[i]).len() <= s.len(),
    decreases s.len(),
{
    if s.len() > 0 {
        lemma_find(s, '\n');
        match find(s, '\n') {
            Some(k) => {
                lemma_lines_len(s.skip(k + 1));
                let t = lines_of(s.skip(k + 1));
                assert forall|i: int| 0 <= i < lines_of(s).len() implies (#[trigger] lines_of(
                    s,
                )[i]).len() <= s.len() by {
                    if i > 0 {
                        assert(lines_of(s)[i] == t[i - 1]);
                    }
                }
            },
            None => {},
        }
    }
}

/// The 0-based index of 1-based line `line`, as `(line as usize)
/// .saturating_sub(1)` computes it.
pub open spec fn line_index(line: i64) -> int {
    if (line as usize) >= 1 {
        (line as usize) - 1
    } else {
        0
    }
}

/// A line that holds `function ` (after trimming).
pub open spec fn is_function_line(l: Seq<char>) -> bool {
    contains(trim(l), "function "@)
}

/// The last function line at or above `i`, or `default`.
pub open spec fn function_line_at_or_above(lines: Seq<Seq<char>>, i: int, default: int) -> int
    decreases i + 1,
{
    if i < 0 {
        default
    } else if is_function_line(lines[i]) {
        i
    } else {
        function_line_at_or_above(lines, i - 1, default)
    }
}

/// Where the enclosing function starts: searching up from the current
/// line (or the last line), the current line when there is none.
pub open spec fn function_start(lines: Seq<Seq<char>>, cur: int) -> int {
    function_line_at_or_above(
        lines,
        if cur < lines.len() - 1 {
            cur
        } else {
            lines.len() - 1
        },
        cur,
    )
}

/// `{` minus `}` in the characters `l[..k]`.
pub open spec fn brace_delta(l: Seq<char>, k: int) -> int
    decreases k,
{
    if k <= 0 {
        0
    } else {
        brace_delta(l, k - 1) + if l[k - 1] == '{' {
            1int
        } else if l[k - 1] == '}' {
            -1int
        } else {
            0int
        }
    }
}

/// The first line from `i` on, after `start`, at the end of which the
/// brace depth counted from `start` is back to zero or below, or `default`.
pub open spec fn function_end_from(
    lines: Seq<Seq<char>>,
    start: int,
    i: int,
    depth: int,
    default: int,
) -> int
    decreases lines.len() - i,
{
    if i < 0 || i >= lines.len() {
        default
    } else {
        let d = depth + brace_delta(lines[i], lines[i].len() as int);
        if d <= 0 && i > start {
            i
        } else {
            function_end_from(lines, start, i + 1, d, default)
        }
    }
}

/// A line of the body that declares nothing: empty, a comment, a brace, or
/// a statement (`require`, `if`, `for`, `while`, `emit`, `revert`,
/// `return`).
pub open spec fn skipped_line(t: Seq<char>) -> bool {
    ||| t.len() == 0
    ||| starts_with(t, "//"@)
    ||| starts_with(t, "{"@)
    ||| starts_with(t, "}"@)
    ||| starts_with(t, "require"@)
    ||| starts_with(t, "if "@)
    ||| starts_with(t, "for "@)
    ||| starts_with(t, "while "@)
    ||| starts_with(t, "emit "@)
    ||| starts_with(t, "revert "@)
    ||| starts_with(t, "return"@)
}

/// The first elementary type, in this order, that `t` begins with.
pub open spec fn elementary_type_prefix(t: Seq<char>) -> Option<Seq<char>> {
    if starts_with(t, "uint256"@) {
        Some("uint256"@)
    } else if starts_with(t, "uint128"@) {
        Some("uint128"@)
    } else if starts_with(t, "uint64"@) {
        Some("uint64"@)
    } else if starts_with(t, "uint32"@) {
        Some("uint32"@)
    } else if starts_with(t, "uint16"@) {
        Some("uint16"@)
    } else if starts_with(t, "uint8"@) {
        Some("uint8"@)
    } else if starts_with(t, "uint"@) {
        Some("uint"@)
    } else if starts_with(t, "int256"@) {
        Some("int256"@)
    } else if starts_with(t, "int128"@) {
        Some("int128"@)
    } else if starts_with(t, "int64"@) {
        Some("int64"@)
    } else if starts_with(t, "int32"@) {
        Some("int32"@)
    } else if starts_with(t, "int16"@) {
        Some("int16"@)
    } else if starts_with(t, "int8"@) {
        Some("int8"@)
    } else if starts_with(t, "int"@) {
        Some("int"@)
    } else if starts_with(t, "address"@) {
        Some("address"@)
    } else if starts_with(t, "bool"@) {
        Some("bool"@)
    } else if starts_with(t, "bytes32"@) {
        Some("bytes32"@)
    } else if starts_with(t, "bytes"@) {
        Some("bytes"@)
    } else if starts_with(t, "string"@) {
        Some("string"@)
    } else {
        None
    }
}

/// The length of the identifier characters (alphanumeric or `_`) that
/// begin `s[i..]`, counted from the start of `s`.
pub open spec fn ident_end(s: Seq<char>, i: int) -> int
    decreases s.len() - i,
{
    if i < 0 || i >= s.len() {
        s.len() as int
    } else if unicode_alphanumeric(s[i]) || s[i] == '_' {
        ident_end(s, i + 1)
    } else {
        i
    }
}

/// The identifier that begins `s`.
pub open spec fn ident_prefix(s: Seq<char>) -> Seq<char> {
    s.subrange(0, ident_end(s, 0))
}

/// `s` without the prefix `m`, when it has it.
pub open spec fn strip_word(s: Seq<char>, m: Seq<char>) -> Seq<char> {
    if starts_with(s, m) {
        s.skip(m.len() as int)
    } else {
        s
    }
}

/// What follows the type of a declaration: a data location (`memory `,
/// `storage `, `calldata `) is skipped.
pub open spec fn declaration_rest(t: Seq<char>, ty: Seq<char>) -> Seq<char> {
    strip_word(
        strip_word(strip_word(trim_start(t.skip(ty.len() as int)), "memory "@), "storage "@),
        "calldata "@,
    )
}

/// The value shown for a local declared at line index `i`.
pub open spec fn declared_text(i: int, cur: int) -> Seq<char> {
    if i < cur {
        "(declared at line "@ + dec_text((i + 1) as nat) + ")"@
    } else {
        "(not yet declared)"@
    }
}

/// The locals that trimmed line `t`, at index `i`, declares: name, shown
/// value, type, and whether it lies above the current line.
pub open spec fn line_locals(t: Seq<char>, i: int, cur: int) -> Seq<
    (Seq<char>, Seq<char>, Seq<char>, bool),
> {
    if skipped_line(t) {
        seq![]
    } else {
        let v = declared_text(i, cur);
        let elementary = match elementary_type_prefix(t) {
            Some(ty) => {
                let name = ident_prefix(declaration_rest(t, ty));
                if name.len() > 0 {
                    seq![(name, v, ty, i < cur)]
                } else {
                    seq![]
                }
            },
            None => seq![],
        };
        let named = if t.len() > 0 && unicode_uppercase(t[0]) {
            let tn = ident_prefix(t);
            let vn = ident_prefix(trim_start(t.skip(tn.len() as int)));
            if vn.len() > 0 && !unicode_uppercase(vn[0]) {
                seq![(vn, v, tn, i < cur)]
            } else {
                seq![]
            }
        } else {
            seq![]
        };
        elementary + named
    }
}

/// The locals that lines `lo..hi` declare.
pub open spec fn locals_in(lines: Seq<Seq<char>>, cur: int, lo: int, hi: int) -> Seq<
    (Seq<char>, Seq<char>, Seq<char>, bool),
>
    decreases hi - lo,
{
    if hi <= lo {
        seq![]
    } else {
        locals_in(lines, cur, lo, hi - 1) + line_locals(trim(lines[hi - 1]), hi - 1, cur)
    }
}

/// The locals declared in the body of the function around line `line`.
pub open spec fn declared_locals(source: Seq<char>, line: i64) -> Seq<
    (Seq<char>, Seq<char>, Seq<char>, bool),
> {
    let lines = lines_of(source);
    let cur = line_index(line);
    let start = function_start(lines, cur);
    let end = function_end_from(lines, start, start, 0, cur);
    let hi = if end < lines.len() - 1 {
        end + 1
    } else {
        lines.len() as int
    };
    locals_in(lines, cur, start + 1, hi)
}

/// Number of locals from `from` on that lie above the current line.
pub open spec fn declared_from(ls: Seq<(Seq<char>, Seq<char>, Seq<char>, bool)>, from: int) -> int
    decreases ls.len() - from,
{
    if from < 0 || from >= ls.len() {
        0
    } else {
        declared_from(ls, from + 1) + if ls[from].3 {
            1int
        } else {
            0int
        }
    }
}

/// The value shown for local `j`: a local above the current line that is
/// the `r`-th such from the last takes stack item `r` from the top, when
/// there is one; otherwise its declaration status.
pub open spec fn local_value(
    ls: Seq<(Seq<char>, Seq<char>, Seq<char>, bool)>,
    stack: Option<Seq<Word>>,
    j: int,
) -> Seq<char> {
    let r = declared_from(ls, j + 1);
    match stack {
        Some(s) => if ls[j].3 && r < s.len() {
            typed_text(val(s[s.len() - 1 - r]), ls[j].2)
        } else {
            ls[j].1
        },
        None => ls[j].1,
    }
}

pub open spec fn stack_opt_view(s: Option<Vec<Word>>) -> Option<Seq<Word>> {
    match s {
        Some(v) => Some(v@),
        None => None,
    }
}

/// The lines of a text.
pub fn split_lines(s: &Vec<char>) -> (r: Vec<Vec<char>>)
    ensures
        r@.len() == lines_of(s@).len(),
        forall|i: int| 0 <= i < r@.len() ==> (#[trigger] r@[i])@ == lines_of(s@)[i],
{
    let n = s.len();
    let mut out: Vec<Vec<char>> = Vec::new();
    let mut pos: usize = 0;
    assert(s@.skip(0) =~= s@);
    while pos < n
        invariant
            n == s@.len(),
            pos <= n,
            Seq::new(out@.len(), |k: int| out@[k]@) + lines_of(s@.skip(pos as int)) == lines_of(s@),
        decreases n - pos,
    {
        let ghost rest = s@.skip(pos as int);
        let mut k: usize = pos;
        while k < n && s[k] != '\n'
            invariant
                n == s@.len(),
                pos <= k <= n,
                rest == s@.skip(pos as int),
                forall|y: int| pos <= y < k ==> s@[y] != '\n',
            decreases n - k,
        {
            k = k + 1;
        }
        proof {
            lemma_find(rest, '\n');
            assert forall|y: int| 0 <= y < k - pos implies rest[y] != '\n' by {
                assert(rest[y] == s@[pos + y]);
            }
            if k < n {
                assert(rest[k - pos] == '\n');
            }
        }
        let ghost prev = Seq::new(out@.len(), |x: int| out@[x]@);
        let mut line: Vec<char> = Vec::new();
        let mut e = k;
        if k > pos && s[k - 1] == '\r' && k < n {
            e = k - 1;
        }
        let mut x: usize = pos;
        while x < e
            invariant
                pos <= x <= e <= n,
                n == s@.len(),
                line@ == s@.subrange(pos as int, x as int),
            decreases e - x,
        {
            line.push(s[x]);
            x = x + 1;
            assert(line@ =~= s@.subrange(pos as int, x as int));
        }
        out.push(line);
        proof {
            if k < n {
                assert(find(rest, '\n') == Some(k - pos));
                assert(rest.skip(k - pos + 1) =~= s@.skip(k + 1));
                assert(rest.subrange(0, k - pos) =~= s@.subrange(pos as int, k as int));
                if k > pos && s@[k - 1] == '\r' {
                    assert(s@.subrange(pos as int, k as int).drop_last() =~= s@.subrange(
                        pos as int,
                        k - 1,
                    ));
                }
            } else {
                assert(find(rest, '\n') is None);
                assert(rest =~= s@.subrange(pos as int, n as int));
                assert(s@.skip(n as int) =~= Seq::<char>::empty());
            }
            assert(Seq::new(out@.len(), |y: int| out@[y]@) =~= prev.push(out@.last()@));
        }
        pos = if k < n {
            k + 1
        } else {
            n
        };
    }
    assert(s@.skip(n as int) =~= Seq::<char>::empty());
    assert(Seq::new(out@.len(), |k: int| out@[k]@) =~= lines_of(s@));
    out
}

/// Whether `l`, trimmed, holds `function `.
fn function_line(l: &Vec<char>) -> (r: bool)
    ensures
        r == is_function_line(l@),
{
    let t = trimmed(l);
    contains_lit(&t, "function ")
}

/// `{` minus `}` in `l`.
fn line_brace_delta(l: &Vec<char>) -> (r: i64)
    requires
        l@.len() < 0x4000_0000_0000_0000,
    ensures
        r == brace_delta(l@, l@.len() as int),
        -(l@.len() as int) <= r <= l@.len(),
{
    let mut d: i64 = 0;
    let mut i: usize = 0;
    while i < l.len()
        invariant
            i <= l@.len(),
            l@.len() < 0x4000_0000_0000_0000,
            d == brace_delta(l@, i as int),
            -(i as int) <= d <= i,
        decreases l.len() - i,
    {
        if l[i] == '{' {
            d = d + 1;
        } else if l[i] == '}' {
            d = d - 1;
        }
        i = i + 1;
    }
    d
}

/// The end of the identifier that begins `s[i..]`.
fn ident_end_exec(s: &Vec<char>, i: usize) -> (r: usize)
    requires
        i <= s@.len(),
    ensures
        r == ident_end(s@, i as int),
        i <= r <= s@.len(),
{
    let mut k = i;
    while k < s.len() && (char_is_alphanumeric(s[k]) || s[k] == '_')
        invariant
            i <= k <= s@.len(),
            ident_end(s@, k as int) == ident_end(s@, i as int),
        decreases s.len() - k,
    {
        k = k + 1;
    }
    k
}

fn ident_prefix_exec(s: &Vec<char>) -> (r: Vec<char>)
    ensures
        r@ == ident_prefix(s@),
        r@.len() <= s@.len(),
{
    let e = ident_end_exec(s, 0);
    crate::text::slice_chars(s, 0, e)
}

fn skip_chars(s: &Vec<char>, k: usize) -> (r: Vec<char>)
    requires
        k <= s@.len(),
    ensures
        r@ == s@.skip(k as int),
{
    let r = crate::text::slice_chars(s, k, s.len());
    assert(r@ =~= s@.skip(k as int));
    r
}

fn trim_start_exec(s: &Vec<char>) -> (r: Vec<char>)
    ensures
        r@ == trim_start(s@),
{
    let mut a: usize = 0;
    let n = s.len();
    assert(s@.skip(0) =~= s@);
    while a < n && crate::text::is_whitespace(s[a])
        invariant
            n == s@.len(),
            a <= n,
            trim_start(s@.skip(a as int)) == trim_start(s@),
        decreases n - a,
    {
        assert(s@.skip(a as int).drop_first() =~= s@.skip(a + 1));
        a = a + 1;
    }
    skip_chars(s, a)
}

fn strip_word_exec(s: Vec<char>, m: &str) -> (r: Vec<char>)
    ensures
        r@ == strip_word(s@, m@),
{
    if starts_with_lit(&s, m) {
        let ml = str_chars(m);
        skip_chars(&s, ml.len())
    } else {
        s
    }
}

fn skipped(t: &Vec<char>) -> (r: bool)
    ensures
        r == skipped_line(t@),
{
    t.len() == 0 || starts_with_lit(t, "//") || starts_with_lit(t, "{") || starts_with_lit(t, "}")
        || starts_with_lit(t, "require") || starts_with_lit(t, "if ") || starts_with_lit(t, "for ")
        || starts_with_lit(t, "while ") || starts_with_lit(t, "emit ") || starts_with_lit(
        t,
        "revert ",
    ) || starts_with_lit(t, "return")
}

fn elementary_type(t: &Vec<char>) -> (r: Option<&'static str>)
    ensures
        match r {
            Some(ty) => elementary_type_prefix(t@) == Some(ty@),
            None => elementary_type_prefix(t@) is None,
        },
{
    if starts_with_lit(t, "uint256") {
        Some("uint256")
    } else if starts_with_lit(t, "uint128") {
        Some("uint128")
    } else if starts_with_lit(t, "uint64") {
        Some("uint64")
    } else if starts_with_lit(t, "uint32") {
        Some("uint32")
    } else if starts_with_lit(t, "uint16") {
        Some("uint16")
    } else if starts_with_lit(t, "uint8") {
        Some("uint8")
    } else if starts_with_lit(t, "uint") {
        Some("uint")
    } else if starts_with_lit(t, "int256") {
        Some("int256")
    } else if starts_with_lit(t, "int128") {
        Some("int128")
    } else if starts_with_lit(t, "int64") {
        Some("int64")
    } else if starts_with_lit(t, "int32") {
        Some("int32")
    } else if starts_with_lit(t, "int16") {
        Some("int16")
    } else if starts_with_lit(t, "int8") {
        Some("int8")
    } else if starts_with_lit(t, "int") {
        Some("int")
    } else if starts_with_lit(t, "address") {
        Some("address")
    } else if starts_with_lit(t, "bool") {
        Some("bool")
    } else if starts_with_lit(t, "bytes32") {
        Some("bytes32")
    } else if starts_with_lit(t, "bytes") {
        Some("bytes")
    } else if starts_with_lit(t, "string") {
        Some("string")
    } else {
        None
    }
}

/// The shown value of a local declared at line index `i`.
fn declared_chars(i: usize, cur: usize) -> (r: Vec<char>)
    ensures
        r@ == declared_text(i as int, cur as int),
{
    if i < cur {
        let mut v = lit_chars("(declared at line ");
        let d = dec_u64_chars(i as u64 + 1);
        push_chars(&mut v, &d);
        push_lit(&mut v, ")");
        v
    } else {
        lit_chars("(not yet declared)")
    }
}

/// A local as a name, shown value, type and declaration status.
pub struct Local {
    pub name: Vec<char>,
    pub value: Vec<char>,
    pub ty_name: Vec<char>,
    pub declared: bool,
}

pub open spec fn local_view(l: Local) -> (Seq<char>, Seq<char>, Seq<char>, bool) {
    (l.name@, l.value@, l.ty_name@, l.declared)
}

/// The locals that trimmed line `t` at index `i` declares.
fn line_locals_exec(t: &Vec<char>, i: usize, cur: usize) -> (r: Vec<Local>)
    ensures
        r@.map_values(|l: Local| local_view(l)) == line_locals(t@, i as int, cur as int),
{
    let mut out: Vec<Local> = Vec::new();
    if skipped(t) {
        assert(out@.map_values(|l: Local| local_view(l)) =~= seq![]);
        return out;
    }
    let declared = i < cur;
    match elementary_type(t) {
        Some(ty) => {
            let tl = str_chars(ty);
            let after = skip_chars(t, tl.len());
            let a1 = trim_start_exec(&after);
            let a2 = strip_word_exec(a1, "memory ");
            let a3 = strip_word_exec(a2, "storage ");
            let a4 = strip_word_exec(a3, "calldata ");
            let name = ident_prefix_exec(&a4);
            if name.len() > 0 {
                out.push(
                    Local { name, value: declared_chars(i, cur), ty_name: tl, declared },
                );
            }
        },
        None => {},
    }
    let ghost first = out@.map_values(|l: Local| local_view(l));
    if t.len() > 0 && char_is_uppercase(t[0]) {
        let tn = ident_prefix_exec(t);
        let after = skip_chars(t, tn.len());
        let rest = trim_start_exec(&after);
        let vn = ident_prefix_exec(&rest);
        if vn.len() > 0 && !char_is_uppercase(vn[0]) {
            out.push(Local { name: vn, value: declared_chars(i, cur), ty_name: tn, declared });
        }
    }
    proof {
        let spec_first = match elementary_type_prefix(t@) {
            Some(ty) => {
                let name = ident_prefix(declaration_rest(t@, ty));
                if name.len() > 0 {
                    seq![(name, declared_text(i as int, cur as int), ty, i < cur)]
                } else {
                    seq![]
                }
            },
            None => seq![],
        };
        assert(first =~= spec_first);
    }
    assert(out@.map_values(|l: Local| local_view(l)) =~= line_locals(t@, i as int, cur as int));
    out
}

/// The local variables of the function around line `current_line` of
/// `source`, with values guessed from the stack of `step`.
pub fn local_variables(source: &str, current_line: i64, step: &TraceStep) -> (r: Vec<Variable>)
    requires
        source@.len() > 0,
        source@.len() < 0x4000_0000_0000_0000,
    ensures
        ({
            let ls = declared_locals(source@, current_line);
            &&& r@.len() == ls.len()
            &&& forall|j: int|
                0 <= j < r@.len() ==> (#[trigger] r@[j])@ == leaf(
                    ls[j].0,
                    local_value(ls, stack_opt_view(step.stack), j),
                    ls[j].2,
                )
        }),
{
    let chars = str_chars(source);
    let lines = split_lines(&chars);
    let ghost lv = lines_of(source@);
    assert(lines@.len() > 0) by {
        reveal_with_fuel(lines_of, 2);
    }
    let n = lines.len();
    let cur: usize = if (current_line as usize) >= 1 {
        (current_line as usize) - 1
    } else {
        0
    };
    assert(cur == line_index(current_line));
    assert(cur < usize::MAX);
    // The enclosing function's first line.
    let top = if cur < n - 1 {
        cur
    } else {
        n - 1
    };
    let mut start: usize = cur;
    let mut i: usize = top + 1;
    while i > 0
        invariant_except_break
            start == cur,
            function_line_at_or_above(lv, i - 1, cur as int) == function_line_at_or_above(
                lv,
                top as int,
                cur as int,
            ),
        invariant
            lv == lines_of(source@),
            lines@.len() == lv.len(),
            forall|k: int| 0 <= k < lines@.len() ==> (#[trigger] lines@[k])@ == lv[k],
            i <= top + 1,
            top < lines@.len(),
        ensures
            start == function_line_at_or_above(lv, top as int, cur as int),
            start == cur || start < lines@.len(),
        decreases i,
    {
        if function_line(&lines[i - 1]) {
            start = i - 1;
            break;
        }
        i = i - 1;
    }
    assert(start == function_start(lv, cur as int));
    // The line where its braces balance.
    proof {
        lemma_lines_len(source@);
    }
    let mut depth: i128 = 0;
    let mut end: usize = cur;
    let mut k: usize = start;
    while k < n
        invariant_except_break
            end == cur,
            -(k - start) * 0x4000_0000_0000_0000 <= depth <= (k - start) * 0x4000_0000_0000_0000,
            function_end_from(lv, start as int, k as int, depth as int, cur as int)
                == function_end_from(lv, start as int, start as int, 0, cur as int),
        invariant
            lv == lines_of(source@),
            lines@.len() == lv.len(),
            n == lv.len(),
            forall|x: int| 0 <= x < lines@.len() ==> (#[trigger] lines@[x])@ == lv[x],
            forall|x: int| 0 <= x < lv.len() ==> (#[trigger] lv[x]).len() <= source@.len(),
            source@.len() < 0x4000_0000_0000_0000,
            start <= k,
        ensures
            end == function_end_from(lv, start as int, start as int, 0, cur as int),
        decreases n - k,
    {
        let d = line_brace_delta(&lines[k]);
        depth = depth + d as i128;
        if depth <= 0 && k > start {
            end = k;
            break;
        }
        k = k + 1;
    }
    // The declarations of the body.
    let lo = start + 1;
    let hi = if end < n - 1 {
        end + 1
    } else {
        n
    };
    let mut locals: Vec<Local> = Vec::new();
    let mut i: usize = lo;
    while i < hi
        invariant
            lv == lines_of(source@),
            lines@.len() == lv.len(),
            forall|x: int| 0 <= x < lines@.len() ==> (#[trigger] lines@[x])@ == lv[x],
            hi <= lines@.len(),
            lo <= i || hi <= i,
            lo <= i <= hi || (i == lo && hi <= lo),
            locals@.map_values(|l: Local| local_view(l)) == locals_in(lv, cur as int, lo as int, i as int),
        decreases hi - i,
    {
        let t = trimmed(&lines[i]);
        let mut ll = line_locals_exec(&t, i, cur);
        let ghost before = locals@.map_values(|l: Local| local_view(l));
        let ghost add = ll@.map_values(|l: Local| local_view(l));
        locals.append(&mut ll);
        assert(locals@.map_values(|l: Local| local_view(l)) =~= before + add);
        i = i + 1;
    }
    let ghost ls = locals@.map_values(|l: Local| local_view(l));
    assert(ls == declared_locals(source@, current_line));
    // Values from the stack, the most recent declaration taking the top.
    let m = locals.len();
    let mut values: Vec<Vec<char>> = Vec::new();
    let mut j: usize = 0;
    while j < m
        invariant
            m == locals@.len(),
            ls == locals@.map_values(|l: Local| local_view(l)),
            j <= m,
            values@.len() == j,
            forall|x: int| 0 <= x < j ==> (#[trigger] values@[x])@ == ls[x].1,
        decreases m - j,
    {
        values.push(crate::text::slice_chars(&locals[j].value, 0, locals[j].value.len()));
        j = j + 1;
    }
    let ghost stack_view = stack_opt_view(step.stack);
    match &step.stack {
        Some(stack) => {
            let mut r: usize = 0;
            let mut j: usize = m;
            while j > 0
                invariant
                    m == locals@.len(),
                    ls == locals@.map_values(|l: Local| local_view(l)),
                    stack_view == Some(stack@),
                    j <= m,
                    values@.len() == m,
                    r == declared_from(ls, j as int),
                    r <= m - j,
                    forall|x: int| 0 <= x < j ==> (#[trigger] values@[x])@ == ls[x].1,
                    forall|x: int|
                        j <= x < m ==> (#[trigger] values@[x])@ == local_value(ls, stack_view, x),
                decreases j,
            {
                let l = &locals[j - 1];
                if l.declared {
                    if r < stack.len() {
                        let w = stack[stack.len() - 1 - r];
                        values.set(j - 1, typed_chars(w, &l.ty_name));
                    }
                    r = r + 1;
                }
                j = j - 1;
            }
        },
        None => {},
    }
    let mut out: Vec<Variable> = Vec::new();
    let mut j: usize = 0;
    while j < m
        invariant
            m == locals@.len(),
            ls == locals@.map_values(|l: Local| local_view(l)),
            values@.len() == m,
            forall|x: int| 0 <= x < m ==> (#[trigger] values@[x])@ == local_value(ls, stack_view, x),
            j <= m,
            out@.len() == j,
            forall|x: int|
                0 <= x < j ==> (#[trigger] out@[x])@ == leaf(ls[x].0, local_value(ls, stack_view, x), ls[x].2),
        decreases m - j,
    {
        let l = &locals[j];
        out.push(
            Variable {
                name: string_of(&l.name),
                value: string_of(&values[j]),
                type_field: Some(string_of(&l.ty_name)),
                variables_reference: 0,
            },
        );
        j = j + 1;
    }
    out
}

} // verus!
