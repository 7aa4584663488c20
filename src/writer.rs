use vstd::prelude::*;
use vstd::string::StringExecFns;

use crate::scan::{find_from, find_from_exec, occurs_at};
use crate::text::{
    chars_of, is_blank, is_forbidden, is_space, is_space_char, sanitize_filename, sanitized,
    string_of, title_case, to_title_case,
};

verus! {

/// `#EXTM3U`, the line that heads every playlist file.
pub open spec fn header() -> Seq<char> {
    seq!['#', 'E', 'X', 'T', 'M', '3', 'U']
}

/// The header with its line break.
pub open spec fn header_line() -> Seq<char> {
    header() + seq!['\n']
}

/// `ungrouped_channels`, the base name of the file for entries without a group.
pub open spec fn fallback_base() -> Seq<char> {
    seq!['u', 'n', 'g', 'r', 'o', 'u', 'p', 'e', 'd', '_', 'c', 'h', 'a', 'n', 'n', 'e', 'l', 's']
}

/// `.m3u`, the extension of every output file.
pub open spec fn extension() -> Seq<char> {
    seq!['.', 'm', '3', 'u']
}

/// The name of the file that holds the entries of group `g`: the fallback
/// name for a blank group, else the group title-cased and sanitized; then the
/// extension.
pub open spec fn group_file_name(g: Seq<char>) -> Seq<char> {
    if is_blank(g) {
        fallback_base() + extension()
    } else {
        sanitized(title_case(g)) + extension()
    }
}

/// `s` without its trailing white space.
pub open spec fn trim_end(s: Seq<char>) -> Seq<char>
    decreases s.len(),
{
    if s.len() > 0 && is_space(s.last()) {
        trim_end(s.drop_last())
    } else {
        s
    }
}

/// `s` without its leading white space.
pub open spec fn trim_start(s: Seq<char>) -> Seq<char>
    decreases s.len(),
{
    if s.len() > 0 && is_space(s[0]) {
        trim_start(s.drop_first())
    } else {
        s
    }
}

/// `s` without white space at either end.
pub open spec fn trimmed(s: Seq<char>) -> Seq<char> {
    trim_end(trim_start(s))
}

/// The first line of a file's content, without its line break.
pub open spec fn first_line(c: Seq<char>) -> Seq<char> {
    match find_from(c, seq!['\n'], 0) {
        Some(k) => c.take(k),
        None => c,
    }
}

/// Whether a file's content begins with a header line (up to white space).
pub open spec fn starts_with_header(c: Seq<char>) -> bool {
    trimmed(first_line(c)) == header()
}

/// The text appended for an entry: its trailing white space dropped, one
/// line break added.
pub open spec fn entry_line(raw: Seq<char>) -> Seq<char> {
    trim_end(raw) + seq!['\n']
}

/// The content of a file after an entry has been written to it: an empty (or
/// missing) file gets the header and the entry; a file that begins with the
/// header gets the entry; any other file gets the header as a new first line
/// above its old content, then the entry.
pub open spec fn file_after(c: Seq<char>, raw: Seq<char>) -> Seq<char> {
    if c.len() == 0 {
        header_line() + entry_line(raw)
    } else if starts_with_header(c) {
        c + entry_line(raw)
    } else {
        header_line() + c + entry_line(raw)
    }
}

/// What must be done about the header of a file before an entry is appended.
#[derive(PartialEq, Eq, Structural, Debug, Clone, Copy)]
pub enum HeaderStep {
    /// The file is missing or empty: write the header line before the entry.
    WriteFirst,
    /// The file does not begin with the header: insert it as a new first line.
    Insert,
    /// The file already begins with the header.
    Keep,
}

/// The header step for a file whose first line is `first` (`None` when the
/// file is missing or empty).
pub open spec fn header_step_for(first: Option<Seq<char>>) -> HeaderStep {
    match first {
        None => HeaderStep::WriteFirst,
        Some(l) => if trimmed(l) == header() {
            HeaderStep::Keep
        } else {
            HeaderStep::Insert
        },
    }
}

fn header_chars() -> (r: Vec<char>)
    ensures
        r@ == header(),
{
    let r = vec!['#', 'E', 'X', 'T', 'M', '3', 'U'];
    assert(r@ == header());
    r
}

/// The header token, `#EXTM3U`.
pub fn m3u_header() -> (r: String)
    ensures
        r@ == header(),
{
    let h = header_chars();
    string_of(h.as_slice())
}

/// The length of `cs` without its trailing white space.
fn trim_end_len(cs: &[char]) -> (n: usize)
    ensures
        n <= cs@.len(),
        cs@.take(n as int) == trim_end(cs@),
{
    let mut n = cs.len();
    assert(cs@.take(n as int) == cs@);
    while n > 0 && is_space_char(cs[n - 1])
        invariant
            n <= cs@.len(),
            trim_end(cs@.take(n as int)) == trim_end(cs@),
        decreases n,
    {
        assert(cs@.take(n as int).drop_last() == cs@.take(n - 1));
        n = n - 1;
    }
    n
}

/// The number of white-space characters that `cs` starts with.
fn trim_start_len(cs: &[char]) -> (k: usize)
    ensures
        k <= cs@.len(),
        cs@.skip(k as int) == trim_start(cs@),
{
    let mut k: usize = 0;
    assert(cs@.skip(0) == cs@);
    while k < cs.len() && is_space_char(cs[k])
        invariant
            k <= cs@.len(),
            trim_start(cs@.skip(k as int)) == trim_start(cs@),
        decreases cs@.len() - k,
    {
        assert(cs@.skip(k as int).drop_first() == cs@.skip(k + 1));
        k = k + 1;
    }
    k
}

/// Whether `l` is the header token up to white space at either end.
fn is_header_line(l: &[char]) -> (r: bool)
    ensures
        r == (trimmed(l@) == header()),
{
    let k = trim_start_len(l);
    let rest = &l[k..l.len()];
    assert(rest@ == l@.skip(k as int));
    let n = trim_end_len(rest);
    let body = &rest[0..n];
    assert(body@ == trimmed(l@));
    let h = header_chars();
    if body.len() != h.len() {
        return false;
    }
    let mut i: usize = 0;
    while i < h.len()
        invariant
            body@ == trimmed(l@),
            h@ == header(),
            body@.len() == h@.len(),
            i <= h@.len(),
            forall|t: int| 0 <= t < i ==> body@[t] == h@[t],
        decreases h@.len() - i,
    {
        if body[i] != h[i] {
            assert(body@[i as int] != h@[i as int]);
            return false;
        }
        i = i + 1;
    }
    assert(body@ == h@);
    true
}

/// Decides what to do about the header of a file, given its first line
/// (with or without its line break), or `None` when the file is missing or
/// empty.
pub fn header_step(first_line: Option<&str>) -> (r: HeaderStep)
    ensures
        r == header_step_for(
            match first_line {
                Some(l) => Some(l@),
                None => None,
            },
        ),
{
    match first_line {
        None => HeaderStep::WriteFirst,
        Some(l) => {
            let cs = chars_of(l);
            if is_header_line(cs.as_slice()) {
                HeaderStep::Keep
            } else {
                HeaderStep::Insert
            }
        },
    }
}

/// The content of a file that did not begin with the header, with the header
/// inserted as its first line.
pub fn with_header(content: &str) -> (r: String)
    ensures
        r@ == header_line() + content@,
{
    let mut r = m3u_header();
    proof {
        reveal_strlit("\n");
    }
    r.append("\n");
    r.append(content);
    r
}

/// The text appended to a file for an entry, after the header line when one
/// is needed.
pub fn entry_text(raw_entry: &str, needs_header: bool) -> (r: String)
    ensures
        r@ == (if needs_header {
            header_line()
        } else {
            Seq::<char>::empty()
        }) + entry_line(raw_entry@),
{
    proof {
        reveal_strlit("\n");
    }
    let mut r = if needs_header {
        let mut h = m3u_header();
        h.append("\n");
        h
    } else {
        String::new()
    };
    let cs = chars_of(raw_entry);
    let n = trim_end_len(cs.as_slice());
    let body = string_of(&cs.as_slice()[0..n]);
    r.append(body.as_str());
    r.append("\n");
    r
}

/// The name of the file, inside the output directory, that receives the
/// entries of group `group_name`.
pub fn generate_group_filename(group_name: &str) -> (r: String)
    ensures
        r@ == group_file_name(group_name@),
{
    let cs = chars_of(group_name);
    let mut blank = true;
    let mut i: usize = 0;
    while i < cs.len()
        invariant
            cs@ == group_name@,
            i <= cs@.len(),
            blank == (forall|t: int| 0 <= t < i ==> is_space(#[trigger] cs@[t])),
        decreases cs@.len() - i,
    {
        if !is_space_char(cs[i]) {
            blank = false;
        }
        i = i + 1;
    }
    let mut r = if blank {
        let b = vec![
            'u', 'n', 'g', 'r', 'o', 'u', 'p', 'e', 'd', '_', 'c', 'h', 'a', 'n', 'n', 'e', 'l', 's',
        ];
        assert(b@ == fallback_base());
        string_of(b.as_slice())
    } else {
        let t = to_title_case(group_name);
        sanitize_filename(t.as_str())
    };
    let e = vec!['.', 'm', '3', 'u'];
    assert(e@ == extension());
    let ext = string_of(e.as_slice());
    r.append(ext.as_str());
    r
}

/// The content of a file after writing an entry to it, given its content
/// before (empty for a missing file).
pub fn updated_file(existing: &str, raw_entry: &str) -> (r: String)
    ensures
        r@ == file_after(existing@, raw_entry@),
{
    let cs = chars_of(existing);
    if cs.len() == 0 {
        return entry_text(raw_entry, true);
    }
    let nl = vec!['\n'];
    assert(nl@ == seq!['\n']);
    let end = match find_from_exec(cs.as_slice(), nl.as_slice(), 0) {
        Some(k) => k,
        None => cs.len(),
    };
    let line = &cs.as_slice()[0..end];
    assert(line@ == first_line(existing@));
    let tail = entry_text(raw_entry, false);
    assert(Seq::<char>::empty() + entry_line(raw_entry@) == entry_line(raw_entry@));
    let mut r = if is_header_line(line) {
        existing.to_owned()
    } else {
        with_header(existing)
    };
    r.append(tail.as_str());
    r
}

/// Text appended after the first occurrence of a pattern does not move it.
proof fn lemma_find_in_prefix(c: Seq<char>, x: Seq<char>, pat: Seq<char>, i: int)
    requires
        find_from(c, pat, i) is Some,
    ensures
        find_from(c + x, pat, i) == find_from(c, pat, i),
    decreases c.len() + 1 - i,
{
    if i >= 0 && i + pat.len() <= c.len() {
        assert((c + x).subrange(i, i + pat.len()) == c.subrange(i, i + pat.len()));
        assert(occurs_at(c + x, pat, i) == occurs_at(c, pat, i));
        if !occurs_at(c, pat, i) {
            lemma_find_in_prefix(c, x, pat, i + 1);
        }
    }
}

/// A file whose first line is complete keeps that first line when text is
/// appended.
proof fn lemma_first_line_kept(c: Seq<char>, x: Seq<char>)
    requires
        find_from(c, seq!['\n'], 0) is Some,
    ensures
        first_line(c + x) == first_line(c),
        find_from(c + x, seq!['\n'], 0) is Some,
{
    lemma_find_in_prefix(c, x, seq!['\n'], 0);
    let k = find_from(c, seq!['\n'], 0)->0;
    lemma_find_bounds(c, seq!['\n'], 0);
    assert((c + x).take(k) == c.take(k));
}

proof fn lemma_find_bounds(c: Seq<char>, pat: Seq<char>, i: int)
    ensures
        find_from(c, pat, i) matches Some(k) ==> i <= k && occurs_at(c, pat, k),
    decreases c.len() + 1 - i,
{
    if i >= 0 && i + pat.len() <= c.len() && !occurs_at(c, pat, i) {
        lemma_find_bounds(c, pat, i + 1);
    }
}

proof fn lemma_no_newline_at(h: Seq<char>, i: int)
    requires
        0 <= i < h.len(),
        h[i] != '\n',
    ensures
        !occurs_at(h, seq!['\n'], i),
{
    assert(h.subrange(i, i + 1)[0] == h[i]);
}

/// The header line's line break is its eighth character.
proof fn lemma_header_line_break()
    ensures
        find_from(header_line(), seq!['\n'], 0) == Some(7int),
{
    let h = header_line();
    let nl = seq!['\n'];
    assert(h == seq!['#', 'E', 'X', 'T', 'M', '3', 'U', '\n']);
    assert(occurs_at(h, nl, 7)) by {
        assert(h.subrange(7, 8) == nl);
    }
    assert(find_from(h, nl, 7) == Some(7int));
    lemma_no_newline_at(h, 6);
    assert(find_from(h, nl, 6) == Some(7int));
    lemma_no_newline_at(h, 5);
    assert(find_from(h, nl, 5) == Some(7int));
    lemma_no_newline_at(h, 4);
    assert(find_from(h, nl, 4) == Some(7int));
    lemma_no_newline_at(h, 3);
    assert(find_from(h, nl, 3) == Some(7int));
    lemma_no_newline_at(h, 2);
    assert(find_from(h, nl, 2) == Some(7int));
    lemma_no_newline_at(h, 1);
    assert(find_from(h, nl, 1) == Some(7int));
    lemma_no_newline_at(h, 0);
}

proof fn lemma_header_trimmed()
    ensures
        trimmed(header()) == header(),
{
    assert(trim_start(header()) == header());
    assert(trim_end(header()) == header());
}

/// A text that starts with the header line starts with a header.
proof fn lemma_header_line_heads(y: Seq<char>)
    ensures
        starts_with_header(header_line() + y),
        find_from(header_line() + y, seq!['\n'], 0) is Some,
{
    let h = header_line();
    lemma_header_line_break();
    lemma_first_line_kept(h, y);
    assert(h.take(7) == header());
    lemma_header_trimmed();
}

/// Every character of a file name derived from a group is allowed in file
/// names; the name depends on the group alone.
pub proof fn lemma_group_file_name_safe(g: Seq<char>, h: Seq<char>)
    ensures
        forall|i: int|
            0 <= i < group_file_name(g).len() ==> !is_forbidden(#[trigger] group_file_name(g)[i]),
        g == h ==> group_file_name(g) == group_file_name(h),
{
    let n = group_file_name(g);
    let ext = extension();
    assert forall|i: int| 0 <= i < n.len() implies !is_forbidden(#[trigger] n[i]) by {
        if is_blank(g) {
            let f = fallback_base();
            if i < f.len() {
                assert(n[i] == f[i]);
            } else {
                assert(n[i] == ext[i - f.len()]);
            }
        } else {
            let t = sanitized(title_case(g));
            if i < t.len() {
                assert(n[i] == t[i]);
            } else {
                assert(n[i] == ext[i - t.len()]);
            }
        }
    }
}

/// A non-empty file that does not begin with the header gets the header as a
/// new first line, its old content unchanged below it, then the entry; the
/// file then begins with the header.
pub proof fn lemma_header_inserted(c: Seq<char>, raw: Seq<char>)
    requires
        c.len() > 0,
        !starts_with_header(c),
    ensures
        file_after(c, raw) == header_line() + c + entry_line(raw),
        starts_with_header(file_after(c, raw)),
{
    assert(header_line() + c + entry_line(raw) == header_line() + (c + entry_line(raw)));
    lemma_header_line_heads(c + entry_line(raw));
}

/// Writing two entries to a file that begins with a complete header line
/// appends them and writes no second header.
pub proof fn lemma_header_not_repeated(c: Seq<char>, r1: Seq<char>, r2: Seq<char>)
    requires
        starts_with_header(c),
        find_from(c, seq!['\n'], 0) is Some,
    ensures
        file_after(c, r1) == c + entry_line(r1),
        file_after(file_after(c, r1), r2) == c + entry_line(r1) + entry_line(r2),
{
    lemma_find_bounds(c, seq!['\n'], 0);
    lemma_first_line_kept(c, entry_line(r1));
}

/// After an entry is written, the file begins with the header, unless it
/// already began with a header line that had no line break after it.
pub proof fn lemma_written_file_headed(c: Seq<char>, raw: Seq<char>)
    requires
        c.len() == 0 || !starts_with_header(c) || find_from(c, seq!['\n'], 0) is Some,
    ensures
        starts_with_header(file_after(c, raw)),
{
    if c.len() == 0 {
        lemma_header_line_heads(entry_line(raw));
    } else if !starts_with_header(c) {
        lemma_header_inserted(c, raw);
    } else {
        lemma_first_line_kept(c, entry_line(raw));
    }
}

} // verus!
