//! Text as sequences of characters: copying, comparing, trimming and splitting.
use vstd::prelude::*;

verus! {

/// `String::push` appends the given character to the end of the string.
pub assume_specification[ String::push ](s: &mut String, c: char)
    ensures
        final(s)@ == old(s)@.push(c),
;

/// `String::push_str` appends the given text to the end of the string.
pub assume_specification[ String::push_str ](s: &mut String, other: &str)
    ensures
        final(s)@ == old(s)@ + other@,
;

/// The characters of `s`, in order.
pub fn chars_of(s: &str) -> (chars: Vec<char>)
    ensures
        chars@ == s@,
{
    let mut chars: Vec<char> = Vec::new();
    for c in it: s.chars()
        invariant
            it.seq() == s@,
            chars@ == s@.take(it.index()),
    {
        chars.push(c);
    }
    chars
}

/// The string whose characters are `chars`.
pub fn string_of(chars: &Vec<char>) -> (s: String)
    ensures
        s@ == chars@,
{
    let mut s: String = String::new();
    for i in 0..chars.len()
        invariant
            s@ == chars@.take(i as int),
    {
        s.push(chars[i]);
    }
    s
}

/// Whether `a` and `b` are the same text.
pub fn same(a: &str, b: &str) -> (r: bool)
    ensures
        r == (a@ == b@),
{
    a.to_owned() == b.to_owned()
}

/// Whether `a` and `b` hold the same characters in the same order.
pub fn same_chars(a: &Vec<char>, b: &Vec<char>) -> (r: bool)
    ensures
        r == (a@ == b@),
{
    if a.len() != b.len() {
        return false;
    }
    for i in 0..a.len()
        invariant
            a@.len() == b@.len(),
            forall|j: int| 0 <= j < i ==> a@[j] == b@[j],
    {
        if a[i] != b[i] {
            return false;
        }
    }
    assert(a@ == b@);
    true
}

/// The characters from index `from` up to, and without, index `to`.
pub fn slice(chars: &Vec<char>, from: usize, to: usize) -> (r: Vec<char>)
    requires
        from <= to <= chars@.len(),
    ensures
        r@ == chars@.subrange(from as int, to as int),
{
    let mut r: Vec<char> = Vec::new();
    for i in from..to
        invariant
            from <= to <= chars@.len(),
            r@ == chars@.subrange(from as int, i as int),
    {
        r.push(chars[i]);
    }
    r
}

// ---------------------------------------------------------------------------
// White space
// ---------------------------------------------------------------------------

/// The Unicode property `White_Space`.
pub open spec fn white_space(c: char) -> bool {
    let u = c as u32;
    ||| 0x0009 <= u <= 0x000D
    ||| u == 0x0020
    ||| u == 0x0085
    ||| u == 0x00A0
    ||| u == 0x1680
    ||| 0x2000 <= u <= 0x200A
    ||| u == 0x2028
    ||| u == 0x2029
    ||| u == 0x202F
    ||| u == 0x205F
    ||| u == 0x3000
}

/// `s` without the white space it begins with.
pub open spec fn trimmed_start(s: Seq<char>) -> Seq<char>
    decreases s.len(),
{
    if s.len() > 0 && white_space(s[0]) {
        trimmed_start(s.skip(1))
    } else {
        s
    }
}

/// `s` without the white space it ends with.
pub open spec fn trimmed_end(s: Seq<char>) -> Seq<char>
    decreases s.len(),
{
    if s.len() > 0 && white_space(s.last()) {
        trimmed_end(s.drop_last())
    } else {
        s
    }
}

/// `s` without the white space around it.
pub open spec fn trimmed(s: Seq<char>) -> Seq<char> {
    trimmed_end(trimmed_start(s))
}

/// Whether `c` has the Unicode property `White_Space`.
pub fn is_whitespace(c: char) -> (r: bool)
    ensures
        r == white_space(c),
        r == (0x0009 <= c as u32 <= 0x000D || c as u32 == 0x0020 || c as u32 == 0x0085 || c as u32
            == 0x00A0 || c as u32 == 0x1680 || 0x2000 <= c as u32 <= 0x200A || c as u32 == 0x2028
            || c as u32 == 0x2029 || c as u32 == 0x202F || c as u32 == 0x205F || c as u32
            == 0x3000),
{
    let u: u32 = c as u32;
    (0x0009 <= u && u <= 0x000D) || u == 0x0020 || u == 0x0085 || u == 0x00A0 || u == 0x1680 || (
    0x2000 <= u && u <= 0x200A) || u == 0x2028 || u == 0x2029 || u == 0x202F || u == 0x205F || u
        == 0x3000
}

/// `s` without the white space around it.
pub fn trim(s: &Vec<char>) -> (r: Vec<char>)
    ensures
        r@ == trimmed(s@),
{
    let len: usize = s.len();
    let mut lo: usize = 0;
    assert(s@.skip(0) == s@);
    while lo < len && is_whitespace(s[lo])
        invariant
            lo <= len == s@.len(),
            trimmed_start(s@.skip(lo as int)) == trimmed_start(s@),
        decreases len - lo,
    {
        assert(s@.skip(lo as int).skip(1) == s@.skip(lo + 1));
        lo = lo + 1;
    }
    let ghost head = s@.skip(lo as int);
    assert(trimmed_start(s@) == head);
    let mut hi: usize = len;
    assert(s@.subrange(lo as int, hi as int) == head);
    while hi > lo && is_whitespace(s[hi - 1])
        invariant
            lo <= hi <= len == s@.len(),
            trimmed_end(s@.subrange(lo as int, hi as int)) == trimmed_end(head),
        decreases hi,
    {
        assert(s@.subrange(lo as int, hi as int).drop_last() == s@.subrange(lo as int, hi - 1));
        hi = hi - 1;
    }
    slice(s, lo, hi)
}

// ---------------------------------------------------------------------------
// Splitting
// ---------------------------------------------------------------------------

/// The index of the first `c` in `s`, or the length of `s` where there is none.
pub open spec fn first_index(s: Seq<char>, c: char) -> nat
    decreases s.len(),
{
    if s.len() == 0 || s[0] == c {
        0
    } else {
        1 + first_index(s.skip(1), c)
    }
}

/// A line before its `'\n'`: a `'\r'` at its end belongs to the line ending.
pub open spec fn without_cr(line: Seq<char>) -> Seq<char> {
    if line.len() > 0 && line.last() == '\r' {
        line.drop_last()
    } else {
        line
    }
}

/// The lines of `s`: each ends in `"\n"` or `"\r\n"`, which is no part of it, and the last line
/// may do without.
pub open spec fn split_lines(s: Seq<char>) -> Seq<Seq<char>>
    decreases s.len(),
{
    let end = first_index(s, '\n');
    if s.len() == 0 {
        seq![]
    } else if end >= s.len() {
        seq![s]
    } else {
        seq![without_cr(s.take(end as int))] + split_lines(s.skip(end as int + 1))
    }
}

/// The contents of each of `parts`.
pub open spec fn contents(parts: Seq<Vec<char>>) -> Seq<Seq<char>> {
    parts.map_values(|p: Vec<char>| p@)
}

/// The text of each of `strings`.
pub open spec fn texts(strings: Seq<String>) -> Seq<Seq<char>> {
    strings.map_values(|s: String| s@)
}

/// `first_index` is where `c` stands first.
pub proof fn lemma_first_index(s: Seq<char>, c: char)
    ensures
        first_index(s, c) <= s.len(),
        first_index(s, c) < s.len() ==> s[first_index(s, c) as int] == c,
        forall|j: int| 0 <= j < first_index(s, c) ==> s[j] != c,
    decreases s.len(),
{
    if s.len() > 0 && s[0] != c {
        lemma_first_index(s.skip(1), c);
        assert forall|j: int| 0 <= j < first_index(s, c) implies s[j] != c by {
            if j > 0 {
                assert(s[j] == s.skip(1)[j - 1]);
            }
        }
    }
}

/// Where `c` stands at `k` and nowhere before, `k` is its first index.
pub proof fn lemma_first_index_is(s: Seq<char>, c: char, k: int)
    requires
        0 <= k <= s.len(),
        k < s.len() ==> s[k] == c,
        forall|j: int| 0 <= j < k ==> s[j] != c,
    ensures
        first_index(s, c) == k,
{
    lemma_first_index(s, c);
    let f = first_index(s, c) as int;
    if f < k {
        assert(s[f] == c);
    }
}

/// The index of the first `c` at or after `from`, or the length of `s` where there is none.
pub fn find(s: &Vec<char>, c: char, from: usize) -> (k: usize)
    requires
        from <= s@.len(),
    ensures
        k == from + first_index(s@.skip(from as int), c),
        from <= k <= s@.len(),
        k < s@.len() ==> s@[k as int] == c,
{
    let mut k: usize = from;
    while k < s.len() && s[k] != c
        invariant
            from <= k <= s@.len(),
            forall|j: int| from <= j < k ==> s@[j] != c,
        decreases s@.len() - k,
    {
        k = k + 1;
    }
    proof {
        lemma_first_index_is(s@.skip(from as int), c, k - from);
    }
    k
}

/// The lines of `s`, without their line endings.
pub fn lines(s: &Vec<char>) -> (r: Vec<Vec<char>>)
    ensures
        contents(r@) == split_lines(s@),
{
    let mut r: Vec<Vec<char>> = Vec::new();
    let mut pos: usize = 0;
    assert(s@.skip(0) == s@);
    assert(contents(r@) + split_lines(s@) == split_lines(s@));
    while pos < s.len()
        invariant
            pos <= s@.len(),
            contents(r@) + split_lines(s@.skip(pos as int)) == split_lines(s@),
        decreases s@.len() - pos,
    {
        let ghost rest = s@.skip(pos as int);
        let ghost before = contents(r@);
        let end: usize = find(s, '\n', pos);
        let mut stop: usize = end;
        if end < s.len() && end > pos && s[end - 1] == '\r' {
            stop = end - 1;
        }
        let line: Vec<char> = slice(s, pos, stop);
        let ghost shown = line@;
        r.push(line);
        assert(contents(r@) == before.push(shown));
        if end < s.len() {
            assert(rest.take(end - pos) == s@.subrange(pos as int, end as int));
            assert(shown == without_cr(rest.take(end - pos)));
            assert(rest.skip(end - pos + 1) == s@.skip(end + 1));
            assert(before + (seq![shown] + split_lines(s@.skip(end + 1))) == before.push(shown)
                + split_lines(s@.skip(end + 1)));
            pos = end + 1;
        } else {
            assert(shown == rest);
            assert(s@.skip(end as int).len() == 0);
            assert(before + seq![shown] == before.push(shown) + split_lines(s@.skip(end as int)));
            pos = end;
        }
    }
    assert(s@.skip(pos as int).len() == 0);
    r
}

/// A first line that ends in `"\n"` is the first of the lines; the others are those of the rest.
pub proof fn lemma_lines_of_line_and_rest(line: Seq<char>, rest: Seq<char>)
    requires
        !line.contains('\n'),
    ensures
        split_lines(line.push('\n') + rest) == seq![without_cr(line)] + split_lines(rest),
{
    let s = line.push('\n') + rest;
    assert forall|j: int| 0 <= j < line.len() implies s[j] != '\n' by {
        assert(line.contains(line[j]));
    }
    lemma_first_index_is(s, '\n', line.len() as int);
    assert(s.take(line.len() as int) == line);
    assert(s.skip(line.len() as int + 1) == rest);
}

// ---------------------------------------------------------------------------
// What holds of every text
// ---------------------------------------------------------------------------

/// The texts of strings are those strings, one for one and in their order.
pub proof fn law_texts(strings: Seq<String>, i: int)
    ensures
        texts(strings).len() == strings.len(),
        0 <= i < strings.len() ==> texts(strings)[i] == strings[i]@,
{
}

/// The contents of parts are those parts, one for one and in their order.
pub proof fn law_contents(parts: Seq<Vec<char>>, i: int)
    ensures
        contents(parts).len() == parts.len(),
        0 <= i < parts.len() ==> contents(parts)[i] == parts[i]@,
{
}

/// How much white space `s` begins with.
proof fn lemma_trimmed_start(s: Seq<char>) -> (lo: int)
    ensures
        0 <= lo <= s.len(),
        trimmed_start(s) == s.skip(lo),
        forall|j: int| 0 <= j < lo ==> white_space(#[trigger] s[j]),
        lo < s.len() ==> !white_space(s[lo]),
    decreases s.len(),
{
    if s.len() > 0 && white_space(s[0]) {
        let rest = s.skip(1);
        let lo = lemma_trimmed_start(rest);
        assert(rest.skip(lo) == s.skip(lo + 1));
        assert forall|j: int| 0 <= j < lo + 1 implies white_space(#[trigger] s[j]) by {
            if j > 0 {
                assert(white_space(rest[j - 1]));
            }
        }
        lo + 1
    } else {
        assert(s.skip(0) == s);
        0
    }
}

/// Where the white space that `s` ends with begins.
proof fn lemma_trimmed_end(s: Seq<char>) -> (hi: int)
    ensures
        0 <= hi <= s.len(),
        trimmed_end(s) == s.take(hi),
        forall|j: int| hi <= j < s.len() ==> white_space(#[trigger] s[j]),
        hi > 0 ==> !white_space(s[hi - 1]),
    decreases s.len(),
{
    if s.len() > 0 && white_space(s.last()) {
        let most = s.drop_last();
        let hi = lemma_trimmed_end(most);
        assert(most.take(hi) == s.take(hi));
        assert forall|j: int| hi <= j < s.len() implies white_space(#[trigger] s[j]) by {
            if j < most.len() {
                assert(white_space(most[j]));
            }
        }
        hi
    } else {
        assert(s.take(s.len() as int) == s);
        s.len() as int
    }
}

/// Trimming takes away nothing but white space, and all of it at both ends: what is left is a
/// stretch of the text that neither begins nor ends with white space, and everything around it is
/// white space.
pub proof fn law_trimmed(s: Seq<char>)
    ensures
        exists|lo: int, hi: int|
            {
                &&& 0 <= lo <= hi <= s.len()
                &&& trimmed(s) == #[trigger] s.subrange(lo, hi)
                &&& forall|j: int| 0 <= j < lo ==> white_space(#[trigger] s[j])
                &&& forall|j: int| hi <= j < s.len() ==> white_space(#[trigger] s[j])
                &&& lo < hi ==> !white_space(s[lo]) && !white_space(s[hi - 1])
            },
        trimmed(s).len() > 0 <==> exists|j: int| 0 <= j < s.len() && !white_space(#[trigger] s[j]),
{
    let lo = lemma_trimmed_start(s);
    let head = s.skip(lo);
    let n = lemma_trimmed_end(head);
    let hi = lo + n;
    assert(trimmed(s) == s.subrange(lo, hi));
    assert forall|j: int| hi <= j < s.len() implies white_space(#[trigger] s[j]) by {
        assert(white_space(head[j - lo]));
    }
    if n > 0 {
        assert(head[n - 1] == s[hi - 1]);
        assert(!white_space(s[hi - 1]));
    } else if lo < s.len() {
        assert(white_space(head[0]));
    }
    if exists|j: int| 0 <= j < s.len() && !white_space(#[trigger] s[j]) {
        let j = choose|j: int| 0 <= j < s.len() && !white_space(#[trigger] s[j]);
        assert(lo <= j < hi);
    }
}

/// The lines of any text, by how it begins: nothing has no lines; what holds no `'\n'` is one
/// line; and a line before `"\n"` or `"\r\n"` comes before the lines of the rest.
pub proof fn law_lines(line: Seq<char>, rest: Seq<char>)
    requires
        forall|j: int| 0 <= j < line.len() ==> #[trigger] line[j] != '\n',
    ensures
        split_lines(Seq::empty()).len() == 0,
        line.len() > 0 ==> split_lines(line) == seq![line],
        split_lines(line + seq!['\r', '\n'] + rest) == seq![line] + split_lines(rest),
        (line.len() == 0 || line[line.len() - 1] != '\r') ==> split_lines(line + seq!['\n'] + rest)
            == seq![line] + split_lines(rest),
{
    let with_cr = line.push('\r');
    assert(!line.contains('\n'));
    assert(!with_cr.contains('\n'));
    lemma_lines_of_line_and_rest(line, rest);
    lemma_lines_of_line_and_rest(with_cr, rest);
    assert(line.push('\n') + rest == line + seq!['\n'] + rest);
    assert(with_cr.push('\n') + rest == line + seq!['\r', '\n'] + rest);
    assert(with_cr.drop_last() == line);
    lemma_first_index_is(line, '\n', line.len() as int);
}

/// White space is these characters and no others.
pub proof fn law_white_space(c: char)
    ensures
        white_space(c) <==> {
            ||| c == '\t' || c == '\n' || c == '\u{b}' || c == '\u{c}' || c == '\r' || c == ' '
            ||| c == '\u{85}' || c == '\u{a0}' || c == '\u{1680}'
            ||| c == '\u{2000}' || c == '\u{2001}' || c == '\u{2002}' || c == '\u{2003}'
            ||| c == '\u{2004}' || c == '\u{2005}' || c == '\u{2006}' || c == '\u{2007}'
            ||| c == '\u{2008}' || c == '\u{2009}' || c == '\u{200a}'
            ||| c == '\u{2028}' || c == '\u{2029}' || c == '\u{202f}' || c == '\u{205f}'
            ||| c == '\u{3000}'
        },
{
}

} // verus!
