use vstd::prelude::*;

use vstd::slice::slice_to_vec;
use vstd::string::StringExecFns;

use crate::text::{chars_of, string_of};

verus! {

/// `#EXTINF:`, the marker that introduces an entry line.
pub open spec fn entry_marker() -> Seq<char> {
    seq!['#', 'E', 'X', 'T', 'I', 'N', 'F', ':']
}

/// `group-title="`, the opening of the group attribute.
pub open spec fn group_attr() -> Seq<char> {
    seq!['g', 'r', 'o', 'u', 'p', '-', 't', 'i', 't', 'l', 'e', '=', '"']
}

/// `http://`
pub open spec fn http_prefix() -> Seq<char> {
    seq!['h', 't', 't', 'p', ':', '/', '/']
}

/// `https://`
pub open spec fn https_prefix() -> Seq<char> {
    seq!['h', 't', 't', 'p', 's', ':', '/', '/']
}

/// Whether `pat` occurs in `l` at position `k`.
pub open spec fn occurs_at(l: Seq<char>, pat: Seq<char>, k: int) -> bool {
    0 <= k && k + pat.len() <= l.len() && l.subrange(k, k + pat.len()) == pat
}

/// The first position at or after `k` where `pat` occurs in `l`.
pub open spec fn find_from(l: Seq<char>, pat: Seq<char>, k: int) -> Option<int>
    decreases l.len() + 1 - k,
{
    if k < 0 || k + pat.len() > l.len() {
        None
    } else if occurs_at(l, pat, k) {
        Some(k)
    } else {
        find_from(l, pat, k + 1)
    }
}

/// The last position before `n` that holds `c`.
pub open spec fn last_before(l: Seq<char>, c: char, n: int) -> Option<int>
    decreases n,
{
    if n <= 0 {
        None
    } else if l[n - 1] == c {
        Some(n - 1)
    } else {
        last_before(l, c, n - 1)
    }
}

/// The group and the display name of an entry line: the line starts with the
/// entry marker; the group is what stands between the first `group-title="`
/// after it and the next `"`; the name is what follows the line's last comma,
/// which must come after that closing quote.
pub open spec fn parse_marker(l: Seq<char>) -> Option<(Seq<char>, Seq<char>)> {
    if !occurs_at(l, entry_marker(), 0) {
        None
    } else {
        match find_from(l, group_attr(), entry_marker().len() as int) {
            None => None,
            Some(p) => {
                let gs = p + group_attr().len();
                match find_from(l, seq!['"'], gs) {
                    None => None,
                    Some(q) => match last_before(l, ',', l.len() as int) {
                        Some(c) if c > q => Some((l.subrange(gs, q), l.subrange(c + 1, l.len() as int))),
                        _ => None,
                    },
                }
            },
        }
    }
}

/// Whether a line starts with `http://` or `https://`.
pub open spec fn is_url_line(l: Seq<char>) -> bool {
    occurs_at(l, http_prefix(), 0) || occurs_at(l, https_prefix(), 0)
}

/// What an extracted entry holds, as plain sequences.
pub ghost struct EntryView {
    pub group: Seq<char>,
    pub name: Seq<char>,
    pub raw_entry: Seq<char>,
}

/// The entry made of an entry line `m` and the URL line `u` after it.
pub open spec fn entry_of(m: Seq<char>, u: Seq<char>) -> EntryView
    recommends
        parse_marker(m) is Some,
{
    let (group, name) = parse_marker(m)->0;
    EntryView { group, name, raw_entry: m + seq!['\n'] + u }
}

/// The entries found in a sequence of lines: an entry line immediately
/// followed by a URL line makes an entry; scanning resumes after the URL line.
/// Any other line is passed over.
pub open spec fn entries_in(ls: Seq<Seq<char>>) -> Seq<EntryView>
    decreases ls.len(),
{
    if ls.len() < 2 {
        seq![]
    } else if parse_marker(ls[0]) is Some && is_url_line(ls[1]) {
        seq![entry_of(ls[0], ls[1])] + entries_in(ls.skip(2))
    } else {
        entries_in(ls.skip(1))
    }
}

/// The lines of `s`, split at each `\n` (which no line holds). A text that
/// ends in `\n` has an empty last line.
pub open spec fn lines(s: Seq<char>) -> Seq<Seq<char>>
    decreases s.len(),
{
    if s.len() == 0 {
        seq![seq![]]
    } else {
        let ls = lines(s.drop_last());
        if s.last() == '\n' {
            ls.push(seq![])
        } else {
            ls.update(ls.len() - 1, ls.last().push(s.last()))
        }
    }
}

/// The entries of a playlist text.
pub open spec fn entries_of_text(s: Seq<char>) -> Seq<EntryView> {
    entries_in(lines(s))
}

/// Whether `pat` occurs in `l` at position `k`.
fn occurs_at_exec(l: &[char], pat: &[char], k: usize) -> (r: bool)
    ensures
        r == occurs_at(l@, pat@, k as int),
{
    if pat.len() > l.len() || k > l.len() - pat.len() {
        return false;
    }
    let mut j: usize = 0;
    while j < pat.len()
        invariant
            j <= pat@.len(),
            k + pat.len() <= l.len(),
            forall|t: int| 0 <= t < j ==> l@[k + t] == pat@[t],
        decreases pat@.len() - j,
    {
        if l[k + j] != pat[j] {
            assert(l@.subrange(k as int, k + pat@.len())[j as int] != pat@[j as int]);
            return false;
        }
        j = j + 1;
    }
    assert(l@.subrange(k as int, k + pat@.len()) == pat@);
    true
}

/// The first position at or after `k` where `pat` occurs in `l`.
pub(crate) fn find_from_exec(l: &[char], pat: &[char], k: usize) -> (r: Option<usize>)
    requires
        pat@.len() > 0,
    ensures
        r matches Some(i) ==> find_from(l@, pat@, k as int) == Some(i as int) && k <= i
            && occurs_at(l@, pat@, i as int),
        r is None ==> find_from(l@, pat@, k as int) is None,
{
    let mut i = k;
    while i <= l.len() && pat.len() <= l.len() - i
        invariant
            k <= i,
            pat@.len() > 0,
            find_from(l@, pat@, k as int) == find_from(l@, pat@, i as int),
        decreases l@.len() + 1 - i,
    {
        if occurs_at_exec(l, pat, i) {
            return Some(i);
        }
        i = i + 1;
    }
    None
}

/// The last position that holds `c`.
fn last_index_of(l: &[char], c: char) -> (r: Option<usize>)
    ensures
        r matches Some(i) ==> last_before(l@, c, l@.len() as int) == Some(i as int) && i
            < l@.len(),
        r is None ==> last_before(l@, c, l@.len() as int) is None,
{
    let mut n = l.len();
    while n > 0
        invariant
            n <= l@.len(),
            last_before(l@, c, l@.len() as int) == last_before(l@, c, n as int),
        decreases n,
    {
        if l[n - 1] == c {
            return Some(n - 1);
        }
        n = n - 1;
    }
    None
}

fn entry_marker_chars() -> (r: Vec<char>)
    ensures
        r@ == entry_marker(),
{
    let r = vec!['#', 'E', 'X', 'T', 'I', 'N', 'F', ':'];
    assert(r@ == entry_marker());
    r
}

fn group_attr_chars() -> (r: Vec<char>)
    ensures
        r@ == group_attr(),
{
    let r = vec!['g', 'r', 'o', 'u', 'p', '-', 't', 'i', 't', 'l', 'e', '=', '"'];
    assert(r@ == group_attr());
    r
}

fn http_chars() -> (r: Vec<char>)
    ensures
        r@ == http_prefix(),
{
    let r = vec!['h', 't', 't', 'p', ':', '/', '/'];
    assert(r@ == http_prefix());
    r
}

fn https_chars() -> (r: Vec<char>)
    ensures
        r@ == https_prefix(),
{
    let r = vec!['h', 't', 't', 'p', 's', ':', '/', '/'];
    assert(r@ == https_prefix());
    r
}

/// Reads the group and the display name off an entry line.
pub fn parse_entry_line(l: &[char]) -> (r: Option<(String, String)>)
    ensures
        r matches Some((g, n)) ==> parse_marker(l@) == Some((g@, n@)),
        r is None ==> parse_marker(l@) is None,
{
    let marker = entry_marker_chars();
    if !occurs_at_exec(l, marker.as_slice(), 0) {
        return None;
    }
    let attr = group_attr_chars();
    let p = match find_from_exec(l, attr.as_slice(), marker.len()) {
        Some(p) => p,
        None => return None,
    };
    let len = l.len();
    assert(p + attr@.len() <= len);
    let gs = p + attr.len();
    let quote = vec!['"'];
    assert(quote@ == seq!['"']);
    let q = match find_from_exec(l, quote.as_slice(), gs) {
        Some(q) => q,
        None => return None,
    };
    match last_index_of(l, ',') {
        Some(c) => {
            if c > q {
                let group = string_of(&l[gs..q]);
                let name = string_of(&l[c + 1..len]);
                Some((group, name))
            } else {
                None
            }
        },
        None => None,
    }
}

/// Whether a line starts with `http://` or `https://`.
pub fn is_url(l: &[char]) -> (r: bool)
    ensures
        r == is_url_line(l@),
{
    let a = http_chars();
    let b = https_chars();
    occurs_at_exec(l, a.as_slice(), 0) || occurs_at_exec(l, b.as_slice(), 0)
}

/// A channel entry taken from a playlist: its group as written, its display
/// name, and the two lines it was read from.
pub struct ChannelRecord {
    pub group: String,
    pub name: String,
    pub raw_entry: String,
}

impl View for ChannelRecord {
    type V = EntryView;

    open spec fn view(&self) -> EntryView {
        EntryView { group: self.group@, name: self.name@, raw_entry: self.raw_entry@ }
    }
}

/// The views of a sequence of records.
pub open spec fn records_view(v: Seq<ChannelRecord>) -> Seq<EntryView> {
    v.map_values(|e: ChannelRecord| e@)
}

/// The entries that a result of a scanning step contributes.
pub open spec fn emitted(r: Option<ChannelRecord>) -> Seq<EntryView> {
    match r {
        Some(e) => seq![e@],
        None => seq![],
    }
}

/// A line that is no entry line starts no entry.
proof fn lemma_pass_line(l: Seq<char>, rest: Seq<Seq<char>>)
    requires
        parse_marker(l) is None,
    ensures
        entries_in(seq![l] + rest) == entries_in(rest),
{
    let ls = seq![l] + rest;
    assert(ls[0] == l);
    if ls.len() >= 2 {
        assert(ls.skip(1) == rest);
    } else {
        assert(rest.len() == 0);
    }
}

/// Scans a playlist one line at a time: holds at most the last entry line
/// (with its group and name), waiting for the URL line that completes it.
pub struct EntryScanner {
    pending: Option<(Vec<char>, String, String)>,
}

impl EntryScanner {
    /// The lines read and not yet accounted for: the held entry line, if any.
    pub closed spec fn held(&self) -> Seq<Seq<char>> {
        match self.pending {
            Some((m, _, _)) => seq![m@],
            None => seq![],
        }
    }

    /// A held line is an entry line, held with its group and name.
    pub closed spec fn wf(&self) -> bool {
        self.pending matches Some((m, g, n)) ==> parse_marker(m@) == Some((g@, n@))
    }

    /// A scanner that has read nothing.
    pub fn new() -> (r: EntryScanner)
        ensures
            r.wf(),
            r.held() == Seq::<Seq<char>>::empty(),
    {
        EntryScanner { pending: None }
    }

    /// Reads one line (without its `\n`) and returns the entry that it
    /// completes, if any. Whatever lines follow, the entries of the held
    /// lines and this one are what is returned followed by the entries of the
    /// lines held after the call.
    pub fn feed_chars(&mut self, line: &[char]) -> (r: Option<ChannelRecord>)
        requires
            old(self).wf(),
        ensures
            final(self).wf(),
            final(self).held().len() <= 1,
            forall|rest: Seq<Seq<char>>|
                #[trigger] entries_in(old(self).held() + seq![line@] + rest) == emitted(r)
                    + entries_in(final(self).held() + rest),
    {
        let ghost before = self.held();
        let url = is_url(line);
        let held = self.pending.take();
        if let Some((m, group, name)) = held {
            if url {
                let mut raw_entry = string_of(m.as_slice());
                proof {
                    reveal_strlit("\n");
                }
                raw_entry.append("\n");
                let tail = string_of(line);
                raw_entry.append(tail.as_str());
                let ghost g = group@;
                let ghost n = name@;
                let r = ChannelRecord { group, name, raw_entry };
                assert(parse_marker(m@) == Some((g, n)));
                assert(r@.raw_entry == m@ + seq!['\n'] + line@);
                assert(r@ == entry_of(m@, line@));
                assert forall|rest: Seq<Seq<char>>|
                    #[trigger] entries_in(before + seq![line@] + rest) == emitted(Some(r))
                        + entries_in(self.held() + rest) by {
                    let ls = before + seq![line@] + rest;
                    assert(ls[0] == m@ && ls[1] == line@);
                    assert(ls.skip(2) == rest);
                    assert(self.held() + rest == rest);
                }
                return Some(r);
            }
            assert forall|rest: Seq<Seq<char>>|
                #[trigger] entries_in(before + seq![line@] + rest) == entries_in(
                    seq![line@] + rest,
                ) by {
                let ls = before + seq![line@] + rest;
                assert(ls[0] == m@ && ls[1] == line@);
                assert(ls.skip(1) == seq![line@] + rest);
            }
        } else {
            assert forall|rest: Seq<Seq<char>>|
                #[trigger] entries_in(before + seq![line@] + rest) == entries_in(
                    seq![line@] + rest,
                ) by {
                assert(before + seq![line@] + rest == seq![line@] + rest);
            }
        }
        match parse_entry_line(line) {
            Some((group, name)) => {
                self.pending = Some((slice_to_vec(line), group, name));
                assert forall|rest: Seq<Seq<char>>|
                    #[trigger] entries_in(before + seq![line@] + rest) == emitted(None)
                        + entries_in(self.held() + rest) by {
                    assert(emitted(None) + entries_in(self.held() + rest) == entries_in(
                        self.held() + rest,
                    ));
                }
            },
            None => {
                assert forall|rest: Seq<Seq<char>>|
                    #[trigger] entries_in(before + seq![line@] + rest) == emitted(None)
                        + entries_in(self.held() + rest) by {
                    lemma_pass_line(line@, rest);
                    assert(self.held() + rest == rest);
                    assert(emitted(None) + entries_in(rest) == entries_in(rest));
                }
            },
        }
        None
    }

    /// Reads one line (without its line break) and returns the entry that it
    /// completes, if any; see `feed_chars`.
    pub fn feed_line(&mut self, line: &str) -> (r: Option<ChannelRecord>)
        requires
            old(self).wf(),
        ensures
            final(self).wf(),
            final(self).held().len() <= 1,
            forall|rest: Seq<Seq<char>>|
                #[trigger] entries_in(old(self).held() + seq![line@] + rest) == emitted(r)
                    + entries_in(final(self).held() + rest),
    {
        let cs = chars_of(line);
        self.feed_chars(cs.as_slice())
    }
}

/// Where each line of `cs` starts and ends.
fn line_spans(cs: &[char]) -> (r: Vec<(usize, usize)>)
    ensures
        r@.len() == lines(cs@).len(),
        forall|j: int|
            0 <= j < r@.len() ==> {
                let (a, b) = #[trigger] r@[j];
                &&& a <= b <= cs@.len()
                &&& cs@.subrange(a as int, b as int) == lines(cs@)[j]
            },
{
    let mut r: Vec<(usize, usize)> = Vec::new();
    let mut start: usize = 0;
    let len = cs.len();
    for i in 0..len
        invariant
            len == cs@.len(),
            start <= i,
            lines(cs@.take(i as int)).len() == r@.len() + 1,
            lines(cs@.take(i as int))[r@.len() as int] == cs@.subrange(start as int, i as int),
            forall|j: int|
                0 <= j < r@.len() ==> {
                    let (a, b) = #[trigger] r@[j];
                    &&& a <= b <= start
                    &&& cs@.subrange(a as int, b as int) == lines(cs@.take(i as int))[j]
                },
    {
        let c = cs[i];
        let ghost prev = lines(cs@.take(i as int));
        assert(cs@.take(i + 1).drop_last() == cs@.take(i as int));
        assert(cs@.take(i + 1).last() == c);
        if c == '\n' {
            assert(lines(cs@.take(i + 1)) == prev.push(Seq::<char>::empty()));
            r.push((start, i));
            start = i + 1;
            assert(cs@.subrange(start as int, i + 1) == Seq::<char>::empty());
        } else {
            assert(cs@.subrange(start as int, i + 1) == cs@.subrange(start as int, i as int).push(
                c,
            ));
        }
    }
    assert(cs@.take(len as int) == cs@);
    r.push((start, len));
    r
}

/// The entries of a whole playlist text, in order: each is an entry line
/// (`#EXTINF:` ... `group-title="<group>"` ... `,<name>`) immediately
/// followed by a line that starts with `http://` or `https://`.
pub fn extract_entries(content: &str) -> (r: Vec<ChannelRecord>)
    ensures
        records_view(r@) == entries_of_text(content@),
{
    let cs = chars_of(content);
    let spans = line_spans(cs.as_slice());
    let ghost ls = lines(content@);
    let mut scanner = EntryScanner::new();
    let mut out: Vec<ChannelRecord> = Vec::new();
    assert(records_view(out@) == Seq::<EntryView>::empty());
    assert(scanner.held() + ls.skip(0) == ls);
    for j in 0..spans.len()
        invariant
            cs@ == content@,
            ls == lines(content@),
            spans@.len() == ls.len(),
            forall|t: int|
                0 <= t < spans@.len() ==> {
                    let (a, b) = #[trigger] spans@[t];
                    &&& a <= b <= cs@.len()
                    &&& cs@.subrange(a as int, b as int) == ls[t]
                },
            scanner.wf(),
            scanner.held().len() <= 1,
            records_view(out@) + entries_in(scanner.held() + ls.skip(j as int)) == entries_in(ls),
    {
        let (a, b) = spans[j];
        let line = &cs.as_slice()[a..b];
        let ghost before = scanner.held();
        let ghost rest = ls.skip(j + 1);
        assert(ls.skip(j as int) == seq![line@] + rest);
        assert(before + ls.skip(j as int) == before + seq![line@] + rest);
        let got = scanner.feed_chars(line);
        assert(entries_in(before + seq![line@] + rest) == emitted(got) + entries_in(
            scanner.held() + rest,
        ));
        let ghost old_out = out@;
        match got {
            Some(e) => {
                out.push(e);
                assert(records_view(out@) == records_view(old_out) + emitted(got));
            },
            None => {
                assert(emitted(got) + entries_in(scanner.held() + rest) == entries_in(
                    scanner.held() + rest,
                ));
            },
        }
    }
    assert(scanner.held() + ls.skip(spans@.len() as int) == scanner.held());
    out
}

} // verus!
