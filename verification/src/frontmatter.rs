use vstd::prelude::*;
use vstd::string::*;

use crate::error::Error;
use crate::text::{chars_of, string_of};

verus! {

/// The byte-order mark that editors may put in front of a file.
pub open spec fn bom() -> char {
    '\u{feff}'
}

/// `trim_start_matches('\u{feff}')`: every leading byte-order mark removed.
pub open spec fn strip_boms(s: Seq<char>) -> Seq<char>
    decreases s.len(),
{
    if s.len() > 0 && s[0] == bom() {
        strip_boms(s.drop_first())
    } else {
        s
    }
}

/// `replace("\r\n", "\n")`: each CRLF pair, scanned left to right, becomes LF.
pub open spec fn crlf_to_lf(s: Seq<char>) -> Seq<char>
    decreases s.len(),
{
    if s.len() == 0 {
        s
    } else if s.len() >= 2 && s[0] == '\r' && s[1] == '\n' {
        seq!['\n'] + crlf_to_lf(s.subrange(2, s.len() as int))
    } else {
        seq![s[0]] + crlf_to_lf(s.drop_first())
    }
}

/// `split('\n')`: the pieces between line feeds; a string with `k` line feeds
/// has `k + 1` pieces, and the empty string has one empty piece.
pub open spec fn split_lines(s: Seq<char>) -> Seq<Seq<char>>
    decreases s.len(),
{
    if s.len() == 0 {
        seq![Seq::<char>::empty()]
    } else {
        let prev = split_lines(s.drop_last());
        if s.last() == '\n' {
            prev.push(Seq::<char>::empty())
        } else {
            prev.update(prev.len() - 1, prev.last().push(s.last()))
        }
    }
}

/// `join("\n")`: the pieces with a line feed between each two.
pub open spec fn join_lines(ls: Seq<Seq<char>>) -> Seq<char>
    decreases ls.len(),
{
    if ls.len() == 0 {
        Seq::<char>::empty()
    } else if ls.len() == 1 {
        ls[0]
    } else {
        join_lines(ls.drop_last()) + seq!['\n'] + ls.last()
    }
}

/// `char::is_whitespace`: the characters with the Unicode White_Space property.
pub open spec fn is_ws(c: char) -> bool {
    let u = c as u32;
    (9 <= u && u <= 13) || u == 32 || u == 0x85 || u == 0xA0 || u == 0x1680 || (0x2000 <= u && u
        <= 0x200A) || u == 0x2028 || u == 0x2029 || u == 0x202F || u == 0x205F || u == 0x3000
}

/// `trim_end()`: trailing whitespace removed.
pub open spec fn trim_end(s: Seq<char>) -> Seq<char>
    decreases s.len(),
{
    if s.len() > 0 && is_ws(s.last()) {
        trim_end(s.drop_last())
    } else {
        s
    }
}

/// `trim_start_matches('\n')`: leading line feeds removed.
pub open spec fn trim_leading_newlines(s: Seq<char>) -> Seq<char>
    decreases s.len(),
{
    if s.len() > 0 && s[0] == '\n' {
        trim_leading_newlines(s.drop_first())
    } else {
        s
    }
}

/// The three dashes that open and close the frontmatter.
pub open spec fn dashes() -> Seq<char> {
    seq!['-', '-', '-']
}

/// A line that is `---` once trailing whitespace is removed.
pub open spec fn is_delimiter(line: Seq<char>) -> bool {
    trim_end(line) == dashes()
}

/// The first position at or after `j` that holds a delimiter line, or the
/// number of lines if none does.
pub open spec fn first_delimiter_from(ls: Seq<Seq<char>>, j: int) -> int
    decreases ls.len() - j,
{
    if j >= ls.len() {
        ls.len() as int
    } else if j >= 0 && is_delimiter(ls[j]) {
        j
    } else {
        first_delimiter_from(ls, j + 1)
    }
}

/// A task file's content with leading byte-order marks stripped and CRLF turned into LF.
pub open spec fn normalized(content: Seq<char>) -> Seq<char> {
    crlf_to_lf(strip_boms(content))
}

/// The reason given for a file whose first line is not `---`.
pub open spec fn missing_opening() -> Seq<char> {
    "missing opening --- delimiter"@
}

/// The reason given for a file with no second `---` line.
pub open spec fn missing_closing() -> Seq<char> {
    "missing closing --- delimiter"@
}

/// What a task file holds: the YAML text between the first line `---` and
/// the next delimiter line, and the body after it with leading line feeds
/// removed; or the reason why the file has no such frontmatter.
pub open spec fn frontmatter_parts(content: Seq<char>) -> Result<(Seq<char>, Seq<char>), Seq<char>> {
    let ls = split_lines(normalized(content));
    let k = first_delimiter_from(ls, 1);
    if !is_delimiter(ls[0]) {
        Err(missing_opening())
    } else if k >= ls.len() {
        Err(missing_closing())
    } else {
        Ok(
            (
                join_lines(ls.subrange(1, k)),
                trim_leading_newlines(join_lines(ls.subrange(k + 1, ls.len() as int))),
            ),
        )
    }
}

/// The character views of a list of character vectors.
pub open spec fn vviews(v: Seq<Vec<char>>) -> Seq<Seq<char>> {
    v.map_values(|x: Vec<char>| x@)
}

proof fn lemma_split_lines_nonempty(s: Seq<char>)
    ensures
        split_lines(s).len() >= 1,
    decreases s.len(),
{
    if s.len() > 0 {
        lemma_split_lines_nonempty(s.drop_last());
    }
}

/// The content with leading byte-order marks removed.
fn strip_boms_exec(s: &Vec<char>) -> (r: Vec<char>)
    ensures
        r@ == strip_boms(s@),
{
    let n = s.len();
    let mut j: usize = 0;
    assert(s@.subrange(0, n as int) =~= s@);
    while j < n && s[j] == '\u{feff}'
        invariant
            n == s@.len(),
            j <= n,
            strip_boms(s@) == strip_boms(s@.subrange(j as int, n as int)),
        decreases n - j,
    {
        assert(s@.subrange(j as int, n as int).drop_first() =~= s@.subrange(j + 1, n as int));
        j = j + 1;
    }
    let mut r: Vec<char> = Vec::new();
    let mut i = j;
    while i < n
        invariant
            n == s@.len(),
            j <= i <= n,
            r@ == s@.subrange(j as int, i as int),
        decreases n - i,
    {
        r.push(s[i]);
        assert(r@ =~= s@.subrange(j as int, i + 1));
        i = i + 1;
    }
    r
}

/// The content with each CRLF turned into LF.
fn crlf_to_lf_exec(s: &Vec<char>) -> (r: Vec<char>)
    ensures
        r@ == crlf_to_lf(s@),
{
    let n = s.len();
    let mut r: Vec<char> = Vec::new();
    let mut i: usize = 0;
    assert(s@.subrange(0, n as int) =~= s@);
    while i < n
        invariant
            n == s@.len(),
            i <= n,
            r@ + crlf_to_lf(s@.subrange(i as int, n as int)) == crlf_to_lf(s@),
        decreases n - i,
    {
        let ghost rest = s@.subrange(i as int, n as int);
        if i + 1 < n && s[i] == '\r' && s[i + 1] == '\n' {
            assert(rest.subrange(2, rest.len() as int) =~= s@.subrange(i + 2, n as int));
            r.push('\n');
            assert(r@ + crlf_to_lf(s@.subrange(i + 2, n as int)) =~= crlf_to_lf(s@));
            i = i + 2;
        } else {
            assert(rest.drop_first() =~= s@.subrange(i + 1, n as int));
            r.push(s[i]);
            assert(r@ + crlf_to_lf(s@.subrange(i + 1, n as int)) =~= crlf_to_lf(s@));
            i = i + 1;
        }
    }
    assert(s@.subrange(n as int, n as int) =~= Seq::<char>::empty());
    assert(r@ =~= crlf_to_lf(s@));
    r
}

/// The lines of `s`, split at line feeds.
pub(crate) fn split_lines_exec(s: &Vec<char>) -> (ls: Vec<Vec<char>>)
    ensures
        vviews(ls@) == split_lines(s@),
{
    let n = s.len();
    let mut lines: Vec<Vec<char>> = Vec::new();
    let mut cur: Vec<char> = Vec::new();
    assert(s@.subrange(0, 0) =~= Seq::<char>::empty());
    assert(vviews(lines@).push(cur@) =~= split_lines(s@.subrange(0, 0)));
    for i in 0..n
        invariant
            n == s@.len(),
            vviews(lines@).push(cur@) == split_lines(s@.subrange(0, i as int)),
    {
        let ghost pre = s@.subrange(0, i as int);
        let ghost post = s@.subrange(0, i + 1);
        assert(post.drop_last() =~= pre);
        assert(post.last() == s@[i as int]);
        if s[i] == '\n' {
            let done = cur;
            lines.push(done);
            cur = Vec::new();
            assert(vviews(lines@).push(cur@) =~= split_lines(post));
        } else {
            cur.push(s[i]);
            assert(vviews(lines@).push(cur@) =~= split_lines(post));
        }
    }
    lines.push(cur);
    assert(s@.subrange(0, n as int) =~= s@);
    assert(vviews(lines@) =~= split_lines(s@));
    lines
}

/// Whether `line` is `---` once trailing whitespace is removed.
fn is_delimiter_exec(line: &Vec<char>) -> (r: bool)
    ensures
        r == is_delimiter(line@),
{
    let mut e = line.len();
    assert(line@.subrange(0, e as int) =~= line@);
    while e > 0 && is_ws_exec(line[e - 1])
        invariant
            e <= line@.len(),
            trim_end(line@) == trim_end(line@.subrange(0, e as int)),
        decreases e,
    {
        assert(line@.subrange(0, e as int).drop_last() =~= line@.subrange(0, e - 1));
        e = e - 1;
    }
    assert(trim_end(line@.subrange(0, e as int)) == line@.subrange(0, e as int));
    if e == 3 && line[0] == '-' && line[1] == '-' && line[2] == '-' {
        assert(line@.subrange(0, 3) =~= dashes());
        true
    } else {
        assert(line@.subrange(0, e as int) != dashes()) by {
            if e == 3 {
                assert(line@.subrange(0, 3)[0] == line@[0]);
                assert(line@.subrange(0, 3)[1] == line@[1]);
                assert(line@.subrange(0, 3)[2] == line@[2]);
            }
        }
        false
    }
}

/// `char::is_whitespace`.
fn is_ws_exec(c: char) -> (r: bool)
    ensures
        r == is_ws(c),
{
    let u = c as u32;
    (9 <= u && u <= 13) || u == 32 || u == 0x85 || u == 0xA0 || u == 0x1680 || (0x2000 <= u && u
        <= 0x200A) || u == 0x2028 || u == 0x2029 || u == 0x202F || u == 0x205F || u == 0x3000
}

/// The lines `a..b` of `ls` joined with line feeds.
fn join_range(ls: &Vec<Vec<char>>, a: usize, b: usize) -> (r: Vec<char>)
    requires
        a <= b <= ls@.len(),
    ensures
        r@ == join_lines(vviews(ls@).subrange(a as int, b as int)),
{
    let ghost vs = vviews(ls@);
    let mut r: Vec<char> = Vec::new();
    let mut i = a;
    assert(vs.subrange(a as int, a as int) =~= Seq::<Seq<char>>::empty());
    while i < b
        invariant
            vs == vviews(ls@),
            a <= i <= b <= ls@.len(),
            r@ == join_lines(vs.subrange(a as int, i as int)),
        decreases b - i,
    {
        let ghost next = vs.subrange(a as int, i + 1);
        assert(next.drop_last() =~= vs.subrange(a as int, i as int));
        assert(next.last() == ls@[i as int]@);
        if i > a {
            r.push('\n');
        }
        let line = &ls[i];
        let mut j: usize = 0;
        let ghost base = r@;
        while j < line.len()
            invariant
                j <= line@.len(),
                r@ == base + line@.subrange(0, j as int),
            decreases line@.len() - j,
        {
            r.push(line[j]);
            assert(r@ =~= base + line@.subrange(0, j + 1));
            j = j + 1;
        }
        assert(line@.subrange(0, line@.len() as int) =~= line@);
        if i == a {
            assert(next.len() == 1);
            assert(r@ =~= join_lines(next));
        } else {
            assert(r@ =~= join_lines(next));
        }
        i = i + 1;
    }
    r
}

/// The characters with leading line feeds removed.
fn trim_leading_newlines_exec(s: &Vec<char>) -> (r: Vec<char>)
    ensures
        r@ == trim_leading_newlines(s@),
{
    let n = s.len();
    let mut j: usize = 0;
    assert(s@.subrange(0, n as int) =~= s@);
    while j < n && s[j] == '\n'
        invariant
            n == s@.len(),
            j <= n,
            trim_leading_newlines(s@) == trim_leading_newlines(s@.subrange(j as int, n as int)),
        decreases n - j,
    {
        assert(s@.subrange(j as int, n as int).drop_first() =~= s@.subrange(j + 1, n as int));
        j = j + 1;
    }
    let mut r: Vec<char> = Vec::new();
    let mut i = j;
    while i < n
        invariant
            n == s@.len(),
            j <= i <= n,
            r@ == s@.subrange(j as int, i as int),
        decreases n - i,
    {
        r.push(s[i]);
        assert(r@ =~= s@.subrange(j as int, i + 1));
        i = i + 1;
    }
    r
}

/// Splits a task file into its YAML frontmatter and its body.
///
/// Leading byte-order marks are stripped and CRLF is read as LF. The first
/// line must be `---` (trailing whitespace allowed); the YAML text runs up to
/// the next such line, and everything after it is the body, with leading line
/// feeds removed. A file that breaks this is refused with `InvalidFrontmatter`
/// (empty path) and the reason.
pub fn split_frontmatter(content: &str) -> (r: Result<(String, String), Error>)
    ensures
        match (r, frontmatter_parts(content@)) {
            (Ok((y, b)), Ok((sy, sb))) => y@ == sy && b@ == sb,
            (Err(Error::InvalidFrontmatter { path, reason }), Err(why)) => path@.len() == 0
                && reason@ == why,
            _ => false,
        },
{
    let raw = chars_of(content);
    let unmarked = strip_boms_exec(&raw);
    let norm = crlf_to_lf_exec(&unmarked);
    let lines = split_lines_exec(&norm);
    let ghost ls = split_lines(normalized(content@));
    proof {
        lemma_split_lines_nonempty(normalized(content@));
    }
    assert(vviews(lines@) == ls);
    assert(lines@[0]@ == ls[0]);
    if !is_delimiter_exec(&lines[0]) {
        return Err(
            Error::InvalidFrontmatter {
                path: String::new(),
                reason: "missing opening --- delimiter".to_owned(),
            },
        );
    }
    let n = lines.len();
    let mut k: usize = 1;
    while k < n && !is_delimiter_exec(&lines[k])
        invariant
            n == lines@.len(),
            vviews(lines@) == ls,
            1 <= k <= n,
            first_delimiter_from(ls, 1) == first_delimiter_from(ls, k as int),
        decreases n - k,
    {
        assert(lines@[k as int]@ == ls[k as int]);
        k = k + 1;
    }
    if k >= n {
        return Err(
            Error::InvalidFrontmatter {
                path: String::new(),
                reason: "missing closing --- delimiter".to_owned(),
            },
        );
    }
    assert(lines@[k as int]@ == ls[k as int]);
    assert(first_delimiter_from(ls, k as int) == k);
    let yaml = join_range(&lines, 1, k);
    let rest = join_range(&lines, k + 1, n);
    let body = trim_leading_newlines_exec(&rest);
    Ok((string_of(&yaml), string_of(&body)))
}


/// The YAML text as it stands in a rendered file: without its final line feed.
pub open spec fn yaml_payload(y: Seq<char>) -> Seq<char> {
    if y.len() > 0 && y.last() == '\n' {
        y.drop_last()
    } else {
        y
    }
}

/// A task file as written: `---`, the YAML text ending in a line feed, `---`,
/// and, when the body is not empty, an empty line followed by the body.
pub open spec fn rendered(y: Seq<char>, b: Seq<char>) -> Seq<char> {
    let head = dashes() + seq!['\n'] + yaml_payload(y) + seq!['\n'] + dashes() + seq!['\n'];
    if b.len() == 0 {
        head
    } else {
        head + seq!['\n'] + b
    }
}

/// Renders a task file from its YAML frontmatter text and its body.
pub fn render_frontmatter(yaml: &str, body: &str) -> (r: String)
    ensures
        r@ == rendered(yaml@, body@),
{
    let y = chars_of(yaml);
    let b = chars_of(body);
    let mut out: Vec<char> = Vec::new();
    out.push('-');
    out.push('-');
    out.push('-');
    out.push('\n');
    let mut i: usize = 0;
    while i < y.len()
        invariant
            i <= y@.len(),
            out@ == dashes() + seq!['\n'] + y@.subrange(0, i as int),
        decreases y@.len() - i,
    {
        out.push(y[i]);
        assert(out@ =~= dashes() + seq!['\n'] + y@.subrange(0, i + 1));
        i = i + 1;
    }
    assert(y@.subrange(0, y@.len() as int) =~= y@);
    if y.len() == 0 || y[y.len() - 1] != '\n' {
        out.push('\n');
    } else {
        assert(y@ =~= yaml_payload(y@).push('\n'));
    }
    assert(out@ =~= dashes() + seq!['\n'] + yaml_payload(y@) + seq!['\n']);
    out.push('-');
    out.push('-');
    out.push('-');
    out.push('\n');
    if b.len() > 0 {
        out.push('\n');
        let mut j: usize = 0;
        let ghost base = out@;
        while j < b.len()
            invariant
                j <= b@.len(),
                out@ == base + b@.subrange(0, j as int),
            decreases b@.len() - j,
        {
            out.push(b[j]);
            assert(out@ =~= base + b@.subrange(0, j + 1));
            j = j + 1;
        }
        assert(b@.subrange(0, b@.len() as int) =~= b@);
    }
    assert(out@ =~= rendered(yaml@, body@));
    string_of(&out)
}

/// No carriage return stands right before a line feed.
pub open spec fn crlf_free(s: Seq<char>) -> bool {
    forall|i: int| 0 <= i < s.len() - 1 ==> !(#[trigger] s[i] == '\r' && s[i + 1] == '\n')
}

proof fn lemma_crlf_identity(s: Seq<char>)
    requires
        crlf_free(s),
    ensures
        crlf_to_lf(s) == s,
    decreases s.len(),
{
    if s.len() > 0 {
        let t = s.drop_first();
        assert(crlf_free(t)) by {
            assert forall|i: int| 0 <= i < t.len() - 1 implies !(#[trigger] t[i] == '\r' && t[i
                + 1] == '\n') by {
                assert(t[i] == s[i + 1] && t[i + 1] == s[i + 2]);
            }
        }
        lemma_crlf_identity(t);
        if s.len() >= 2 {
            assert(!(s[0] == '\r' && s[1] == '\n'));
        }
        assert(seq![s[0]] + t =~= s);
    }
}

proof fn lemma_crlf_concat(u: Seq<char>, v: Seq<char>)
    requires
        u.len() == 0 || u.last() != '\r',
    ensures
        crlf_to_lf(u + v) == crlf_to_lf(u) + crlf_to_lf(v),
    decreases u.len(),
{
    if u.len() == 0 {
        assert(u + v =~= v);
    } else if u.len() >= 2 && u[0] == '\r' && u[1] == '\n' {
        let w = u.subrange(2, u.len() as int);
        assert((u + v).subrange(2, (u + v).len() as int) =~= w + v);
        lemma_crlf_concat(w, v);
    } else {
        let w = u.drop_first();
        assert((u + v).drop_first() =~= w + v);
        if u.len() == 1 {
            assert(u[0] != '\r');
        }
        lemma_crlf_concat(w, v);
    }
}

proof fn lemma_split_no_newline(s: Seq<char>)
    requires
        !s.contains('\n'),
    ensures
        split_lines(s) == seq![s],
    decreases s.len(),
{
    if s.len() > 0 {
        let t = s.drop_last();
        assert(!t.contains('\n')) by {
            if t.contains('\n') {
                let i = choose|i: int| 0 <= i < t.len() && t[i] == '\n';
                assert(s[i] == '\n');
            }
        }
        lemma_split_no_newline(t);
        assert(s.last() != '\n') by {
            assert(s[s.len() - 1] == s.last());
        }
        assert(t.push(s.last()) =~= s);
        assert(split_lines(s) =~= seq![s]);
    } else {
        assert(s =~= Seq::<char>::empty());
        assert(split_lines(s) =~= seq![s]);
    }
}

proof fn lemma_split_concat(a: Seq<char>, b: Seq<char>)
    ensures
        split_lines(a + seq!['\n'] + b) == split_lines(a) + split_lines(b),
    decreases b.len(),
{
    let s = a + seq!['\n'] + b;
    if b.len() == 0 {
        assert(s.drop_last() =~= a);
        assert(split_lines(s) =~= split_lines(a) + split_lines(b));
    } else {
        let bp = b.drop_last();
        lemma_split_concat(a, bp);
        assert(s.drop_last() =~= a + seq!['\n'] + bp);
        lemma_split_lines_nonempty(bp);
        lemma_split_lines_nonempty(a);
        assert(split_lines(s) =~= split_lines(a) + split_lines(b));
    }
}

proof fn lemma_join_split(s: Seq<char>)
    ensures
        join_lines(split_lines(s)) == s,
    decreases s.len(),
{
    if s.len() > 0 {
        let t = s.drop_last();
        let p = split_lines(t);
        lemma_join_split(t);
        lemma_split_lines_nonempty(t);
        if s.last() == '\n' {
            assert(p.push(Seq::<char>::empty()).drop_last() =~= p);
            assert(join_lines(split_lines(s)) =~= s);
        } else {
            let q = p.update(p.len() - 1, p.last().push(s.last()));
            if p.len() == 1 {
                assert(join_lines(q) =~= s);
            } else {
                assert(q.drop_last() =~= p.drop_last());
                assert(q.last() == p.last().push(s.last()));
                assert(join_lines(p) == join_lines(p.drop_last()) + seq!['\n'] + p.last());
                assert(join_lines(q) == join_lines(p.drop_last()) + seq!['\n'] + q.last());
                assert(join_lines(q) =~= t.push(s.last()));
                assert(t.push(s.last()) =~= s);
            }
        }
    }
}

proof fn lemma_first_delimiter(ls: Seq<Seq<char>>, i: int, k: int)
    requires
        0 <= i <= k < ls.len(),
        is_delimiter(ls[k]),
        forall|j: int| i <= j < k ==> !is_delimiter(#[trigger] ls[j]),
    ensures
        first_delimiter_from(ls, i) == k,
    decreases k - i,
{
    if i < k {
        lemma_first_delimiter(ls, i + 1, k);
    }
}

/// Reading back a rendered task file gives the YAML text and the body that
/// were written, as long as the YAML text holds no line that reads as a
/// delimiter, neither part holds a CRLF pair (reading turns CRLF into LF),
/// and the body does not start with a line feed (reading drops those).
pub proof fn lemma_frontmatter_roundtrip(y: Seq<char>, b: Seq<char>)
    requires
        crlf_free(yaml_payload(y).push('\n')),
        crlf_free(b),
        b.len() == 0 || b[0] != '\n',
        forall|i: int|
            0 <= i < split_lines(yaml_payload(y)).len() ==> !is_delimiter(
                #[trigger] split_lines(yaml_payload(y))[i],
            ),
    ensures
        frontmatter_parts(rendered(y, b)) == Ok::<(Seq<char>, Seq<char>), Seq<char>>(
            (yaml_payload(y), b),
        ),
{
    let p = yaml_payload(y);
    let d: Seq<char> = if b.len() == 0 {
        Seq::<char>::empty()
    } else {
        seq!['\n'] + b
    };
    let full = rendered(y, b);
    let nl = seq!['\n'];
    // the file is four pieces joined by line feeds
    assert(full =~= dashes() + nl + (p + nl + (dashes() + nl + d)));
    // no byte-order mark in front, and no CRLF pair anywhere
    assert(strip_boms(full) == full) by {
        assert(full[0] == '-');
    }
    assert(crlf_to_lf(full) == full) by {
        let dn = dashes() + nl;
        assert(crlf_free(dn));
        lemma_crlf_identity(dn);
        assert(p + nl =~= p.push('\n'));
        lemma_crlf_identity(p + nl);
        assert(crlf_free(d)) by {
            if b.len() > 0 {
                assert forall|i: int| 0 <= i < d.len() - 1 implies !(#[trigger] d[i] == '\r'
                    && d[i + 1] == '\n') by {
                    if i > 0 {
                        assert(d[i] == b[i - 1] && d[i + 1] == b[i]);
                    }
                }
            }
        }
        lemma_crlf_identity(d);
        assert((dn + d).len() > 0);
        lemma_crlf_concat(dn, d);
        assert((p + nl).last() == '\n');
        lemma_crlf_concat(p + nl, dn + d);
        lemma_crlf_concat(dn, p + nl + (dn + d));
        assert(full =~= dn + (p + nl + (dn + d)));
        assert(p + nl + (dashes() + nl + d) =~= p + nl + (dn + d));
    }
    assert(normalized(full) == full);
    // the lines
    assert(!dashes().contains('\n')) by {
        if dashes().contains('\n') {
            let i = choose|i: int| 0 <= i < 3 && dashes()[i] == '\n';
        }
    }
    lemma_split_no_newline(dashes());
    lemma_split_concat(dashes(), d);
    lemma_split_concat(p, dashes() + nl + d);
    lemma_split_concat(dashes(), p + nl + (dashes() + nl + d));
    let sp = split_lines(p);
    let sd = split_lines(d);
    let ls = split_lines(full);
    assert(ls =~= seq![dashes()] + (sp + (seq![dashes()] + sd)));
    let k: int = 1 + sp.len() as int;
    assert(is_delimiter(dashes())) by {
        assert(dashes().last() == '-');
    }
    assert(ls[0] == dashes());
    assert(ls[k] == dashes());
    assert forall|j: int| 1 <= j < k implies !is_delimiter(#[trigger] ls[j]) by {
        assert(ls[j] == sp[j - 1]);
    }
    lemma_first_delimiter(ls, 1, k);
    assert(ls.subrange(1, k) =~= sp);
    assert(ls.subrange(k + 1, ls.len() as int) =~= sd);
    lemma_join_split(p);
    lemma_join_split(d);
    assert(join_lines(ls.subrange(1, k)) == p);
    assert(join_lines(ls.subrange(k + 1, ls.len() as int)) == d);
    if b.len() > 0 {
        assert(d[0] == '\n');
        assert(d.drop_first() =~= b);
        assert(trim_leading_newlines(b) == b);
        assert(trim_leading_newlines(d) == trim_leading_newlines(b));
    } else {
        assert(b =~= d);
    }
    assert(trim_leading_newlines(d) == b);
}

/// `trim_start()`: leading whitespace removed.
pub open spec fn trim_start_ws(s: Seq<char>) -> Seq<char>
    decreases s.len(),
{
    if s.len() > 0 && is_ws(s[0]) {
        trim_start_ws(s.drop_first())
    } else {
        s
    }
}

/// `trim()`: leading and trailing whitespace removed.
pub open spec fn trim_spec(s: Seq<char>) -> Seq<char> {
    trim_start_ws(trim_end(s))
}

proof fn lemma_trim_end_take(s: Seq<char>, e: int)
    requires
        0 <= e <= s.len(),
        forall|k: int| e <= k < s.len() ==> is_ws(#[trigger] s[k]),
    ensures
        trim_end(s) == trim_end(s.take(e)),
    decreases s.len() - e,
{
    if e < s.len() {
        assert(s.drop_last().take(e) =~= s.take(e));
        lemma_trim_end_take(s.drop_last(), e);
    } else {
        assert(s.take(e) =~= s);
    }
}

proof fn lemma_trim_start_skip(s: Seq<char>, b: int)
    requires
        0 <= b <= s.len(),
        forall|k: int| 0 <= k < b ==> is_ws(#[trigger] s[k]),
    ensures
        trim_start_ws(s) == trim_start_ws(s.skip(b)),
    decreases b,
{
    if b > 0 {
        assert(s.drop_first().skip(b - 1) =~= s.skip(b));
        lemma_trim_start_skip(s.drop_first(), b - 1);
    } else {
        assert(s.skip(0) =~= s);
    }
}

/// The string with leading and trailing whitespace removed.
pub fn trim_str(s: &str) -> (r: String)
    ensures
        r@ == trim_spec(s@),
{
    let v = crate::text::chars_of(s);
    let n = v.len();
    let mut e: usize = n;
    while e > 0 && is_ws_exec(v[e - 1])
        invariant
            v@ == s@,
            n == v@.len(),
            e <= n,
            forall|k: int| e <= k < n ==> is_ws(#[trigger] v@[k]),
        decreases e,
    {
        e = e - 1;
    }
    proof {
        lemma_trim_end_take(v@, e as int);
        let t = v@.take(e as int);
        if e > 0 {
            assert(!is_ws(t.last()));
        }
        assert(trim_end(t) == t);
    }
    let mut b: usize = 0;
    while b < e && is_ws_exec(v[b])
        invariant
            v@ == s@,
            n == v@.len(),
            b <= e <= n,
            forall|k: int| 0 <= k < b ==> is_ws(#[trigger] v@[k]),
        decreases e - b,
    {
        b = b + 1;
    }
    let ghost t = v@.take(e as int);
    proof {
        assert forall|k: int| 0 <= k < b implies is_ws(#[trigger] t[k]) by {
            assert(t[k] == v@[k]);
        }
        lemma_trim_start_skip(t, b as int);
        let u = t.skip(b as int);
        if b < e {
            assert(u[0] == v@[b as int]);
        }
        assert(trim_start_ws(u) == u);
    }
    let mut r: Vec<char> = Vec::new();
    for i in b..e
        invariant
            v@ == s@,
            b <= e <= n,
            n == v@.len(),
            r@ == v@.subrange(b as int, i as int),
    {
        r.push(v[i]);
        assert(r@ =~= v@.subrange(b as int, i + 1));
    }
    assert(v@.subrange(b as int, e as int) =~= t.skip(b as int));
    crate::text::string_of(&r)
}

} // verus!
