use vstd::prelude::*;
use vstd::string::StringExecFns;

verus! {

/// Relies on `FromIterator<&char> for String`: the string holds the given
/// characters, in order.
#[verifier::external_body]
pub(crate) fn string_of(cs: &[char]) -> (r: String)
    ensures
        r@ == cs@,
{
    cs.iter().collect()
}

/// The characters of `s`, in order.
pub(crate) fn chars_of(s: &str) -> (r: Vec<char>)
    ensures
        r@ == s@,
{
    broadcast use vstd::string::group_string_axioms;
    let mut r: Vec<char> = Vec::new();
    for c in it: s.chars()
        invariant
            r@ == it.seq().take(it.index() as int),
    {
        r.push(c);
    }
    r
}

/// Whether `c` is one of the characters that a group name must not carry
/// into a file name.
pub open spec fn is_forbidden(c: char) -> bool {
    c == '\\' || c == '/' || c == ':' || c == '"' || c == '*' || c == '?' || c == '<'
        || c == '>' || c == '|' || c == '&'
}

/// `s` with each forbidden character replaced by an underscore.
pub open spec fn sanitized(s: Seq<char>) -> Seq<char> {
    s.map_values(|c: char| if is_forbidden(c) { '_' } else { c })
}

/// Replaces each character that a file name must not hold by `_`.
pub fn sanitize_filename(s: &str) -> (r: String)
    ensures
        r@ == sanitized(s@),
{
    let cs = chars_of(s);
    let mut out: Vec<char> = Vec::new();
    for i in 0..cs.len()
        invariant
            cs@ == s@,
            out@ == sanitized(s@.take(i as int)),
    {
        let c = cs[i];
        let d = if c == '\\' || c == '/' || c == ':' || c == '"' || c == '*' || c == '?' || c == '<'
            || c == '>' || c == '|' || c == '&' {
            '_'
        } else {
            c
        };
        out.push(d);
        assert(s@.take(i + 1) == s@.take(i as int).push(c));
    }
    assert(s@.take(cs.len() as int) == s@);
    string_of(out.as_slice())
}

/// Whether `c` has the Unicode `White_Space` property.
pub open spec fn is_space(c: char) -> bool {
    ('\u{9}' <= c && c <= '\u{d}') || c == ' ' || c == '\u{85}' || c == '\u{a0}'
        || c == '\u{1680}' || ('\u{2000}' <= c && c <= '\u{200a}') || c == '\u{2028}'
        || c == '\u{2029}' || c == '\u{202f}' || c == '\u{205f}' || c == '\u{3000}'
}

/// Tells whether `c` is white space in Unicode's sense.
pub fn is_space_char(c: char) -> (r: bool)
    ensures
        r == is_space(c),
{
    ('\u{9}' <= c && c <= '\u{d}') || c == ' ' || c == '\u{85}' || c == '\u{a0}'
        || c == '\u{1680}' || ('\u{2000}' <= c && c <= '\u{200a}') || c == '\u{2028}'
        || c == '\u{2029}' || c == '\u{202f}' || c == '\u{205f}' || c == '\u{3000}'
}

/// Whether every character of `s` is white space.
pub open spec fn is_blank(s: Seq<char>) -> bool {
    forall|i: int| 0 <= i < s.len() ==> is_space(#[trigger] s[i])
}

/// What the upper-case mapping of a character gives (one or more characters).
pub uninterp spec fn upper_of(c: char) -> Seq<char>;

/// What the lower-case mapping of a string gives.
pub uninterp spec fn lower_of(s: Seq<char>) -> Seq<char>;

/// Relies on `char::to_uppercase`: its result depends on the character alone.
#[verifier::external_body]
fn uppercase_char(c: char) -> (r: String)
    ensures
        r@ == upper_of(c),
{
    c.to_uppercase().collect()
}

/// Relies on `str::to_lowercase`: its result depends on the characters alone.
#[verifier::external_body]
fn lowercase_str(s: &str) -> (r: String)
    ensures
        r@ == lower_of(s@),
{
    s.to_lowercase()
}

/// The words of a prefix of a string read so far: the words already closed
/// by white space, and the word still being read.
pub open spec fn split_state(s: Seq<char>) -> (Seq<Seq<char>>, Seq<char>)
    decreases s.len(),
{
    if s.len() == 0 {
        (seq![], seq![])
    } else {
        let (ws, cur) = split_state(s.drop_last());
        if is_space(s.last()) {
            if cur.len() > 0 {
                (ws.push(cur), seq![])
            } else {
                (ws, cur)
            }
        } else {
            (ws, cur.push(s.last()))
        }
    }
}

/// The maximal runs of non-white-space characters of `s`, in order.
pub open spec fn words(s: Seq<char>) -> Seq<Seq<char>> {
    let (ws, cur) = split_state(s);
    if cur.len() > 0 {
        ws.push(cur)
    } else {
        ws
    }
}

/// The words joined by single spaces.
pub open spec fn joined(ws: Seq<Seq<char>>) -> Seq<char>
    decreases ws.len(),
{
    if ws.len() == 0 {
        seq![]
    } else if ws.len() == 1 {
        ws[0]
    } else {
        joined(ws.drop_last()) + seq![' '] + ws.last()
    }
}

/// A word with its first character upper-cased and the rest lower-cased.
pub open spec fn title_word(w: Seq<char>) -> Seq<char> {
    if w.len() == 0 {
        seq![]
    } else {
        upper_of(w[0]) + lower_of(w.drop_first())
    }
}

/// Each of the words title-cased.
pub open spec fn titled(ws: Seq<Seq<char>>) -> Seq<Seq<char>> {
    ws.map_values(|w: Seq<char>| title_word(w))
}

/// The words of `s`, each title-cased, joined by single spaces.
pub open spec fn title_case(s: Seq<char>) -> Seq<char> {
    joined(titled(words(s)))
}

proof fn lemma_joined_push(ws: Seq<Seq<char>>, w: Seq<char>)
    ensures
        joined(ws.push(w)) == if ws.len() == 0 {
            w
        } else {
            joined(ws) + seq![' '] + w
        },
{
    assert(ws.push(w).drop_last() == ws);
}

/// Title-cases a non-empty word.
fn title_word_of(w: &[char]) -> (r: String)
    requires
        w@.len() > 0,
    ensures
        r@ == title_word(w@),
{
    let mut r = uppercase_char(w[0]);
    let rest = string_of(&w[1..w.len()]);
    assert(w@.subrange(1, w@.len() as int) == w@.drop_first());
    let low = lowercase_str(rest.as_str());
    r.append(low.as_str());
    r
}

/// The words of `s`: its maximal runs of non-white-space characters, in order.
pub fn split_words(s: &str) -> (r: Vec<String>)
    ensures
        r.deep_view() == words(s@),
{
    let cs = chars_of(s);
    let mut out: Vec<String> = Vec::new();
    let mut start: usize = 0;
    for i in 0..cs.len()
        invariant
            cs@ == s@,
            start <= i,
            ({
                let (ws, cur) = split_state(s@.take(i as int));
                &&& cur == s@.subrange(start as int, i as int)
                &&& out.deep_view() == ws
            }),
    {
        let c = cs[i];
        assert(s@.take(i + 1).drop_last() == s@.take(i as int));
        assert(s@.take(i + 1).last() == c);
        let ghost st = split_state(s@.take(i as int));
        if is_space_char(c) {
            if start < i {
                let w = string_of(&cs[start..i]);
                assert(cs@.subrange(start as int, i as int) == st.1);
                out.push(w);
                assert(out.deep_view() == st.0.push(st.1));
            }
            start = i + 1;
            assert(s@.subrange(start as int, i + 1) == Seq::<char>::empty());
        } else {
            assert(s@.subrange(start as int, i + 1) == s@.subrange(start as int, i as int).push(
                c,
            ));
        }
    }
    assert(s@.take(cs.len() as int) == s@);
    let ghost st = split_state(s@);
    if start < cs.len() {
        let w = string_of(&cs[start..cs.len()]);
        assert(cs@.subrange(start as int, cs.len() as int) == st.1);
        out.push(w);
        assert(out.deep_view() == st.0.push(st.1));
    }
    out
}

/// The words joined by single spaces.
pub fn join_words(ws: &[String]) -> (r: String)
    ensures
        r@ == joined(ws.deep_view()),
{
    let mut out = String::new();
    for i in 0..ws.len()
        invariant
            out@ == joined(ws.deep_view().take(i as int)),
    {
        let ghost prev = ws.deep_view().take(i as int);
        assert(ws.deep_view().take(i + 1) == prev.push(ws@[i as int]@));
        proof {
            lemma_joined_push(prev, ws@[i as int]@);
        }
        if i > 0 {
            proof {
                reveal_strlit(" ");
            }
            out.append(" ");
        }
        out.append(ws[i].as_str());
    }
    assert(ws.deep_view().take(ws.len() as int) == ws.deep_view());
    out
}

/// Upper-cases the first letter of each white-space separated word and
/// lower-cases the rest; the words are joined by single spaces.
pub fn to_title_case(s: &str) -> (r: String)
    ensures
        r@ == title_case(s@),
{
    let ws = split_words(s);
    let mut titled_words: Vec<String> = Vec::new();
    for i in 0..ws.len()
        invariant
            ws.deep_view() == words(s@),
            titled_words.deep_view() == titled(ws.deep_view().take(i as int)),
    {
        let ghost prev = ws.deep_view().take(i as int);
        assert(ws.deep_view().take(i + 1) == prev.push(ws@[i as int]@));
        assert(titled(prev.push(ws@[i as int]@)) == titled(prev).push(title_word(ws@[i as int]@)));
        let cs = chars_of(ws[i].as_str());
        let t = if cs.len() == 0 {
            String::new()
        } else {
            title_word_of(cs.as_slice())
        };
        titled_words.push(t);
    }
    assert(ws.deep_view().take(ws.len() as int) == ws.deep_view());
    join_words(titled_words.as_slice())
}

} // verus!
