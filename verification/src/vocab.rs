//! The character-level tokenizer.
use std::collections::HashMap;

use vstd::prelude::*;

use crate::number;
use crate::text;

verus! {

/// `char::from_u32` gives the character with code point `i`, and `None` where `i` is no Unicode
/// scalar value: a surrogate, or a number above `0x10FFFF`.
pub assume_specification[ char::from_u32 ](i: u32) -> (r: Option<char>)
    ensures
        r is Some <==> (i <= 0xD7FF || 0xE000 <= i <= 0x10FFFF),
        r matches Some(c) ==> c as u32 == i,
;

/// The index of the last `c` in `chars`; negative where there is none.
pub open spec fn last_index(chars: Seq<char>, c: char) -> int
    decreases chars.len(),
{
    if chars.len() == 0 {
        -1
    } else if chars.last() == c {
        chars.len() - 1
    } else {
        last_index(chars.drop_last(), c)
    }
}

/// The token of `c`: its index among `chars`, the last one where it stands there more than once.
pub open spec fn token_of(chars: Seq<char>, c: char) -> Option<u32> {
    if last_index(chars, c) >= 0 {
        Some(last_index(chars, c) as u32)
    } else {
        None
    }
}

/// The tokens of the characters of `s` that stand in `chars`; the others are left out.
pub open spec fn tokens_of(chars: Seq<char>, s: Seq<char>) -> Seq<u32>
    decreases s.len(),
{
    if s.len() == 0 {
        seq![]
    } else {
        match token_of(chars, s.last()) {
            Some(t) => tokens_of(chars, s.drop_last()).push(t),
            None => tokens_of(chars, s.drop_last()),
        }
    }
}

/// The character of a token.
pub open spec fn char_of(chars: Seq<char>, id: u32) -> Option<char> {
    if (id as usize) < chars.len() {
        Some(chars[(id as usize) as int])
    } else {
        None
    }
}

/// Each character has a higher code point than the one before it.
pub open spec fn increasing(chars: Seq<char>) -> bool {
    forall|i: int, j: int| 0 <= i < j < chars.len() ==> chars[i] < chars[j]
}

/// `last_index` is where `c` stands last.
pub proof fn lemma_last_index(chars: Seq<char>, c: char)
    ensures
        -1 <= last_index(chars, c) < chars.len(),
        last_index(chars, c) >= 0 <==> chars.contains(c),
        last_index(chars, c) >= 0 ==> chars[last_index(chars, c)] == c,
        forall|j: int| last_index(chars, c) < j < chars.len() ==> chars[j] != c,
    decreases chars.len(),
{
    if chars.len() > 0 {
        let before = chars.drop_last();
        if chars.last() == c {
            assert(chars[chars.len() - 1] == c);
        } else {
            lemma_last_index(before, c);
            assert forall|j: int| last_index(chars, c) < j < chars.len() implies chars[j] != c by {
                if j < before.len() {
                    assert(before[j] == chars[j]);
                }
            }
            if chars.contains(c) {
                let j = choose|j: int| 0 <= j < chars.len() && chars[j] == c;
                assert(before[j] == c);
            }
        }
    }
}

/// Different characters have different code points.
proof fn lemma_code_points_differ(a: char, b: char)
    ensures
        a as u32 == b as u32 ==> a == b,
{
}

/// A code point is at most `0x10FFFF`.
proof fn lemma_code_point_bound(c: char)
    ensures
        0 <= c as int <= 0x10FFFF,
{
}

/// Whether `ids` holds the token of every character of `chars`, by code point, and no other.
pub open spec fn indexes(ids: Map<u32, u32>, chars: Seq<char>) -> bool {
    forall|c: char| indexes_char(ids, chars, c)
}

/// Whether `ids` holds the token of `c`, if `c` has one.
pub open spec fn indexes_char(ids: Map<u32, u32>, chars: Seq<char>, c: char) -> bool {
    match token_of(chars, c) {
        Some(t) => ids.contains_key(c as u32) && ids[c as u32] == t,
        None => !ids.contains_key(c as u32),
    }
}

/// In increasing characters no code point is less than its index.
proof fn lemma_increasing_bound(chars: Seq<char>, i: int)
    requires
        increasing(chars),
        0 <= i < chars.len(),
    ensures
        i <= chars[i] as int,
    decreases i,
{
    lemma_code_point_bound(chars[i]);
    if i > 0 {
        lemma_increasing_bound(chars, i - 1);
        assert(chars[i - 1] < chars[i]);
    }
}

/// What a sequence holds after `c` was added at its end.
proof fn lemma_contains_push(s: Seq<char>, c: char, x: char)
    ensures
        s.push(c).contains(x) <==> s.contains(x) || x == c,
{
    let t = s.push(c);
    if s.contains(x) {
        let j = choose|j: int| 0 <= j < s.len() && s[j] == x;
        assert(t[j] == x);
    }
    if t.contains(x) && x != c {
        let j = choose|j: int| 0 <= j < t.len() && t[j] == x;
        assert(s[j] == x);
    }
    assert(t[s.len() as int] == c);
}

/// A new character, put behind the lesser ones, keeps the characters increasing.
proof fn lemma_insert_keeps_increasing(s: Seq<char>, at: int, c: char)
    requires
        increasing(s),
        0 <= at <= s.len(),
        forall|j: int| 0 <= j < at ==> s[j] < c,
        at < s.len() ==> c < s[at],
    ensures
        increasing(s.insert(at, c)),
        forall|x: char| #[trigger] s.insert(at, c).contains(x) <==> s.contains(x) || x == c,
{
    let t = s.insert(at, c);
    assert forall|i: int, j: int| 0 <= i < j < t.len() implies t[i] < t[j] by {
        if j == at {
            assert(t[i] == s[i]);
        } else if i == at {
            assert(t[j] == s[j - 1]);
            assert(s[at] <= s[j - 1]);
        }
    }
    assert forall|x: char| #[trigger] t.contains(x) <==> s.contains(x) || x == c by {
        if s.contains(x) {
            let j = choose|j: int| 0 <= j < s.len() && s[j] == x;
            if j < at {
                assert(t[j] == x);
            } else {
                assert(t[j + 1] == x);
            }
        }
        if t.contains(x) && x != c {
            let j = choose|j: int| 0 <= j < t.len() && t[j] == x;
            if j < at {
                assert(s[j] == x);
            } else {
                assert(s[j - 1] == x);
            }
        }
        assert(t[at] == c);
    }
}

/// The characters that the model knows. The token of a character is its index.
pub struct Vocab {
    ch_to_id: HashMap<u32, u32>,
    id_to_ch: Vec<char>,
}

impl View for Vocab {
    type V = Seq<char>;

    /// The characters, in the order of their tokens.
    closed spec fn view(&self) -> Seq<char> {
        self.id_to_ch@
    }
}

impl Vocab {
    #[verifier::type_invariant]
    spec fn wf(self) -> bool {
        indexes(self.ch_to_id@, self.id_to_ch@)
    }

    /// The vocabulary whose characters are `chars`.
    fn from_chars(chars: Vec<char>) -> (vocab: Vocab)
        ensures
            vocab@ == chars@,
    {
        broadcast use vstd::std_specs::hash::group_hash_axioms;

        let mut ch_to_id: HashMap<u32, u32> = HashMap::new();
        for i in 0..chars.len()
            invariant
                indexes(ch_to_id@, chars@.take(i as int)),
        {
            broadcast use vstd::std_specs::hash::group_hash_axioms;

            let ghost before = chars@.take(i as int);
            let ghost now = chars@.take(i + 1);
            let ghost map = ch_to_id@;
            let ch: char = chars[i];
            ch_to_id.insert(ch as u32, #[verifier::truncate] (i as u32));
            assert(now.drop_last() == before);
            assert forall|c: char| indexes_char(ch_to_id@, now, c) by {
                assert(indexes_char(map, before, c));
                lemma_code_points_differ(c, ch);
                if c == ch {
                    assert(last_index(now, c) == i);
                } else {
                    assert(last_index(now, c) == last_index(before, c));
                }
            }
        }
        assert(chars@.take(chars@.len() as int) == chars@);
        Vocab { ch_to_id, id_to_ch: chars }
    }

    /// The vocabulary of a text: its distinct characters, by code point.
    pub fn build(text: &str) -> (vocab: Vocab)
        ensures
            increasing(vocab@),
            forall|i: int, j: int| 0 <= i < j < vocab@.len() ==> vocab@[i] < vocab@[j],
            forall|c: char| vocab@.contains(c) <==> text@.contains(c),
            vocab@.len() <= 0x110000,
    {
        let all: Vec<char> = text::chars_of(text);
        let mut chars: Vec<char> = Vec::new();
        for i in 0..all.len()
            invariant
                all@ == text@,
                increasing(chars@),
                forall|c: char| #[trigger] chars@.contains(c) <==> all@.take(i as int).contains(c),
        {
            let c: char = all[i];
            let ghost before = chars@;
            let ghost read = all@.take(i as int);
            let ghost now = all@.take(i + 1);
            // The characters before `at` are less than `c`, and the others are not.
            let mut at: usize = 0;
            while at < chars.len() && chars[at] < c
                invariant
                    at <= chars@.len(),
                    forall|j: int| 0 <= j < at ==> chars@[j] < c,
                decreases chars@.len() - at,
            {
                at = at + 1;
            }
            assert(now == read.push(c));
            assert forall|x: char| #[trigger] now.contains(x) <==> read.contains(x) || x == c by {
                lemma_contains_push(read, c, x);
            }
            if at == chars.len() || chars[at] != c {
                chars.insert(at, c);
                assert(chars@ == before.insert(at as int, c));
                proof {
                    lemma_insert_keeps_increasing(before, at as int, c);
                }
            } else {
                assert(before[at as int] == c);
            }
            assert forall|x: char| #[trigger] chars@.contains(x) <==> now.contains(x) by {
                assert(before.contains(x) <==> read.contains(x));
            }
        }
        assert(all@.take(all@.len() as int) == all@);
        proof {
            if chars@.len() > 0 {
                lemma_increasing_bound(chars@, chars@.len() - 1);
                lemma_code_point_bound(chars@.last());
            }
        }
        Vocab::from_chars(chars)
    }

    /// The number of characters.
    pub fn size(&self) -> (n: usize)
        ensures
            n == self@.len(),
    {
        self.id_to_ch.len()
    }

    /// The tokens of `s`. A character that is not in the vocabulary has none and is left out.
    pub fn encode(&self, s: &str) -> (tokens: Vec<u32>)
        ensures
            tokens@ == tokens_of(self@, s@),
    {
        broadcast use vstd::std_specs::hash::group_hash_axioms;

        proof {
            use_type_invariant(self);
        }
        let chars: Vec<char> = text::chars_of(s);
        let mut tokens: Vec<u32> = Vec::new();
        for i in 0..chars.len()
            invariant
                chars@ == s@,
                indexes(self.ch_to_id@, self.id_to_ch@),
                tokens@ == tokens_of(self@, s@.take(i as int)),
        {
            broadcast use vstd::std_specs::hash::group_hash_axioms;

            let c: char = chars[i];
            assert(s@.take(i + 1).drop_last() == s@.take(i as int));
            assert(s@.take(i + 1).last() == c);
            assert(indexes_char(self.ch_to_id@, self.id_to_ch@, c));
            if let Some(t) = self.ch_to_id.get(&(c as u32)) {
                tokens.push(*t);
            }
        }
        assert(s@.take(s@.len() as int) == s@);
        tokens
    }

    /// The character of a token, if there is one.
    pub fn decode_char(&self, id: u32) -> (c: Option<char>)
        ensures
            c == char_of(self@, id),
            id < self@.len() ==> c == Some(self@[id as int]),
            id >= self@.len() ==> c is None,
    {
        let i: usize = id as usize;
        if i < self.id_to_ch.len() {
            Some(self.id_to_ch[i])
        } else {
            None
        }
    }

    /// The vocabulary as text: the code points of its characters, one per line, which is
    /// unambiguous for any character.
    pub fn save(&self) -> (text: String)
        ensures
            text@ == saved(self@),
    {
        let mut text: String = String::new();
        for i in 0..self.id_to_ch.len()
            invariant
                text@ == joined_codes(self.id_to_ch@.take(i as int)),
        {
            let ghost now = self.id_to_ch@.take(i + 1);
            assert(now.drop_last() == self.id_to_ch@.take(i as int));
            if i > 0 {
                text.push('\n');
            }
            let c: char = self.id_to_ch[i];
            proof {
                lemma_code_point_bound(c);
            }
            let code: u32 = c as u32;
            assert(now.last() == c);
            text.push_str(number::to_decimal(code as u64).as_str());
            assert(text@ == joined_codes(now));
        }
        assert(self.id_to_ch@.take(self.id_to_ch@.len() as int) == self.id_to_ch@);
        text.push('\n');
        text
    }

    /// Reads a vocabulary from text. Empty lines are passed over; the first line that is not the
    /// code point of a character is an error.
    pub fn load(text: &str) -> (r: Result<Vocab, InvalidCodePoint>)
        ensures
            match r {
                Ok(vocab) => read_chars(text::split_lines(text@)) == Ok::<Seq<char>, Seq<char>>(
                    vocab@,
                ),
                Err(e) => read_chars(text::split_lines(text@)) == Err::<Seq<char>, Seq<char>>(
                    e.line@,
                ),
            },
    {
        let lines: Vec<Vec<char>> = text::lines(&text::chars_of(text));
        let ghost all = text::split_lines(text@);
        let mut chars: Vec<char> = Vec::new();
        assert(all.skip(0) == all);
        proof {
            lemma_after_nothing(read_chars(all));
        }
        for i in 0..lines.len()
            invariant
                text::contents(lines@) == all,
                all == text::split_lines(text@),
                read_chars(all) == after(chars@, read_chars(all.skip(i as int))),
        {
            let ghost rest = all.skip(i as int);
            assert(rest.skip(1) == all.skip(i + 1));
            assert(rest[0] == lines@[i as int]@);
            let ghost before = chars@;
            if lines[i].len() > 0 {
                match read_code_point(&lines[i]) {
                    Some(c) => {
                        chars.push(c);
                        assert(read_chars(rest) == after(seq![c], read_chars(rest.skip(1))));
                        proof {
                            lemma_after_after(before, seq![c], read_chars(rest.skip(1)));
                        }
                        assert(before + seq![c] == chars@);
                    },
                    None => {
                        return Err(InvalidCodePoint { line: text::string_of(&lines[i]) });
                    },
                }
            }
        }
        assert(all.skip(lines@.len() as int).len() == 0);
        assert(chars@ + Seq::<char>::empty() == chars@);
        Ok(Vocab::from_chars(chars))
    }
}

/// The code points of `chars` in decimal, with a `'\n'` between them.
pub open spec fn joined_codes(chars: Seq<char>) -> Seq<char>
    decreases chars.len(),
{
    if chars.len() == 0 {
        seq![]
    } else if chars.len() == 1 {
        number::decimal(chars[0] as nat)
    } else {
        joined_codes(chars.drop_last()).push('\n') + number::decimal(chars.last() as nat)
    }
}

/// A vocabulary as text.
pub open spec fn saved(chars: Seq<char>) -> Seq<char> {
    joined_codes(chars).push('\n')
}

/// A line that is not the code point of a character.
pub struct InvalidCodePoint {
    /// The line.
    pub line: String,
}

impl InvalidCodePoint {
    /// What is wrong, in words.
    pub fn message(&self) -> (m: String)
        ensures
            m@ == "invalid code point: "@ + self.line@,
    {
        let mut m: String = "invalid code point: ".to_owned();
        m.push_str(self.line.as_str());
        m
    }
}

/// The character whose code point a line holds.
pub open spec fn code_point(line: Seq<char>) -> Option<char> {
    match number::u32_value(line) {
        Some(n) => if n <= 0xD7FF || 0xE000 <= n <= 0x10FFFF {
            Some(n as char)
        } else {
            None
        },
        None => None,
    }
}

/// `first` in front of what was read, if that is no error.
pub open spec fn after(
    first: Seq<char>,
    rest: Result<Seq<char>, Seq<char>>,
) -> Result<Seq<char>, Seq<char>> {
    match rest {
        Ok(chars) => Ok(first + chars),
        Err(line) => Err(line),
    }
}

/// The characters whose code points the lines hold, or the first line that holds none.
pub open spec fn read_chars(lines: Seq<Seq<char>>) -> Result<Seq<char>, Seq<char>>
    decreases lines.len(),
{
    if lines.len() == 0 {
        Ok(seq![])
    } else if lines[0].len() == 0 {
        read_chars(lines.skip(1))
    } else {
        match code_point(lines[0]) {
            Some(c) => after(seq![c], read_chars(lines.skip(1))),
            None => Err(lines[0]),
        }
    }
}

proof fn lemma_after_nothing(r: Result<Seq<char>, Seq<char>>)
    ensures
        after(seq![], r) == r,
{
    if let Ok(chars) = r {
        assert(Seq::<char>::empty() + chars == chars);
    }
}

proof fn lemma_after_after(a: Seq<char>, b: Seq<char>, r: Result<Seq<char>, Seq<char>>)
    ensures
        after(a, after(b, r)) == after(a + b, r),
{
    if let Ok(chars) = r {
        assert(a + (b + chars) == a + b + chars);
    }
}

/// A character is what its code point stands for.
proof fn lemma_char_of_code_point(c: char, n: u32)
    requires
        c as u32 == n,
    ensures
        n as char == c,
{
}

/// Reads the code point of a character.
fn read_code_point(line: &Vec<char>) -> (r: Option<char>)
    ensures
        r == code_point(line@),
{
    match number::parse_u32(line) {
        Some(n) => {
            let r: Option<char> = char::from_u32(n);
            proof {
                if let Some(c) = r {
                    lemma_char_of_code_point(c, n);
                }
            }
            r
        },
        None => None,
    }
}

// ---------------------------------------------------------------------------
// What holds of every vocabulary
// ---------------------------------------------------------------------------

/// A text of two or more code points begins with the first and goes on with the others.
proof fn lemma_saved_front(chars: Seq<char>)
    requires
        chars.len() >= 2,
    ensures
        saved(chars) == number::decimal(chars[0] as nat).push('\n') + saved(chars.skip(1)),
    decreases chars.len(),
{
    let before = chars.drop_last();
    let rest = chars.skip(1);
    let last = number::decimal(chars.last() as nat);
    assert(saved(chars) == saved(before) + last.push('\n'));
    if chars.len() == 2 {
        assert(saved(rest) == last.push('\n'));
    } else {
        lemma_saved_front(before);
        assert(before.skip(1) == rest.drop_last());
        assert(saved(rest) == saved(rest.drop_last()) + last.push('\n'));
        assert(saved(chars) == number::decimal(chars[0] as nat).push('\n') + (saved(
            rest.drop_last(),
        ) + last.push('\n')));
    }
}

/// A code point in decimal is a line that reads back as its character.
proof fn lemma_code_point_line(c: char)
    ensures
        number::decimal(c as nat).len() > 0,
        !number::decimal(c as nat).contains('\n'),
        text::without_cr(number::decimal(c as nat)) == number::decimal(c as nat),
        code_point(number::decimal(c as nat)) == Some(c),
{
    let s = number::decimal(c as nat);
    number::lemma_decimal(c as nat);
    number::law_decimal_reads_back(c as nat);
    if s.contains('\n') {
        let j = choose|j: int| 0 <= j < s.len() && s[j] == '\n';
        assert(number::is_digit(s[j]));
    }
    assert(number::is_digit(s[s.len() - 1]));
}

/// A vocabulary that was saved is read back as it was.
pub proof fn law_saved_reads_back(chars: Seq<char>)
    ensures
        read_chars(text::split_lines(saved(chars))) == Ok::<Seq<char>, Seq<char>>(chars),
    decreases chars.len(),
{
    let none = Seq::<char>::empty();
    assert(text::split_lines(none) == Seq::<Seq<char>>::empty());
    if chars.len() == 0 {
        assert(saved(chars) == none.push('\n') + none);
        text::lemma_lines_of_line_and_rest(none, none);
        let lines = text::split_lines(saved(chars));
        assert(lines[0] == none);
        assert(lines.skip(1) == Seq::<Seq<char>>::empty());
        assert(read_chars(lines.skip(1)) == Ok::<Seq<char>, Seq<char>>(none));
        assert(chars == none);
    } else {
        let c = chars[0];
        let first = number::decimal(c as nat);
        let rest = chars.skip(1);
        let tail = if chars.len() == 1 {
            none
        } else {
            saved(rest)
        };
        lemma_code_point_line(c);
        if chars.len() == 1 {
            assert(saved(chars) == first.push('\n') + tail);
            assert(rest == none);
        } else {
            lemma_saved_front(chars);
            law_saved_reads_back(rest);
        }
        text::lemma_lines_of_line_and_rest(first, tail);
        let lines = text::split_lines(saved(chars));
        assert(lines[0] == first);
        assert(lines.skip(1) == text::split_lines(tail));
        assert(read_chars(lines.skip(1)) == Ok::<Seq<char>, Seq<char>>(rest));
        assert(seq![c] + rest == chars);
        assert(read_chars(lines) == after(seq![c], read_chars(lines.skip(1))));
    }
}

/// A token that was given to a character stands for that character.
pub proof fn law_token_decodes(chars: Seq<char>, c: char)
    requires
        chars.len() <= 0x1_0000_0000,
    ensures
        token_of(chars, c) is Some <==> chars.contains(c),
        token_of(chars, c) matches Some(t) ==> t < chars.len() && char_of(chars, t) == Some(c),
{
    lemma_last_index(chars, c);
}

/// Where no character stands twice, the character of a token has that token.
pub proof fn law_char_encodes(chars: Seq<char>, id: u32)
    requires
        chars.len() <= 0x1_0000_0000,
        chars.no_duplicates(),
    ensures
        char_of(chars, id) matches Some(c) ==> token_of(chars, c) == Some(id),
{
    if let Some(c) = char_of(chars, id) {
        lemma_last_index(chars, c);
        assert(chars[id as int] == c);
        assert(chars.contains(c));
        assert(last_index(chars, c) == id);
    }
}

/// Increasing characters hold no character twice.
pub proof fn law_increasing_is_distinct(chars: Seq<char>)
    requires
        increasing(chars),
    ensures
        chars.no_duplicates(),
{
    assert forall|i: int, j: int| 0 <= i < chars.len() && 0 <= j < chars.len() && i != j implies
        chars[i] != chars[j] by {
        if i < j {
            assert(chars[i] < chars[j]);
        } else {
            assert(chars[j] < chars[i]);
        }
    }
}

/// A text of known characters is encoded character by character, and its tokens decode to it.
pub proof fn law_encoded_text_decodes(chars: Seq<char>, s: Seq<char>)
    requires
        chars.len() <= 0x1_0000_0000,
        forall|i: int| 0 <= i < s.len() ==> chars.contains(#[trigger] s[i]),
    ensures
        tokens_of(chars, s).len() == s.len(),
        forall|i: int|
            0 <= i < s.len() ==> char_of(chars, #[trigger] tokens_of(chars, s)[i]) == Some(s[i]),
    decreases s.len(),
{
    if s.len() > 0 {
        let before = s.drop_last();
        assert forall|i: int| 0 <= i < before.len() implies chars.contains(#[trigger] before[i]) by {
            assert(chars.contains(s[i]));
        }
        law_encoded_text_decodes(chars, before);
        law_token_decodes(chars, s.last());
        assert(chars.contains(s[s.len() - 1]));
        let tokens = tokens_of(chars, s);
        assert forall|i: int| 0 <= i < s.len() implies char_of(chars, #[trigger] tokens[i]) == Some(
            s[i],
        ) by {
            if i < before.len() {
                assert(tokens[i] == tokens_of(chars, before)[i]);
                assert(before[i] == s[i]);
            }
        }
    }
}

/// The tokens of any text decode, in order, to those of its characters that are known.
pub proof fn law_known_characters_decode(chars: Seq<char>, s: Seq<char>)
    requires
        chars.len() <= 0x1_0000_0000,
    ensures
        ({
            let known = s.filter(|c: char| chars.contains(c));
            &&& tokens_of(chars, s).len() == known.len()
            &&& forall|i: int|
                0 <= i < known.len() ==> char_of(chars, #[trigger] tokens_of(chars, s)[i]) == Some(
                    known[i],
                )
        }),
    decreases s.len(),
{
    reveal(Seq::filter);
    let is_known = |c: char| chars.contains(c);
    if s.len() > 0 {
        let before = s.drop_last();
        law_known_characters_decode(chars, before);
        law_token_decodes(chars, s.last());
        let known = s.filter(is_known);
        let known_before = before.filter(is_known);
        let tokens = tokens_of(chars, s);
        assert forall|i: int| 0 <= i < known.len() implies char_of(chars, #[trigger] tokens[i])
            == Some(known[i]) by {
            if i < known_before.len() {
                assert(tokens[i] == tokens_of(chars, before)[i]);
                assert(known[i] == known_before[i]);
            }
        }
    }
}

/// Every token is less than the size of the vocabulary, and there are no more tokens than
/// characters.
pub proof fn law_tokens_in_range(chars: Seq<char>, s: Seq<char>)
    requires
        chars.len() <= 0x1_0000_0000,
    ensures
        tokens_of(chars, s).len() <= s.len(),
        forall|i: int|
            0 <= i < tokens_of(chars, s).len() ==> #[trigger] tokens_of(chars, s)[i] < chars.len(),
    decreases s.len(),
{
    if s.len() > 0 {
        let before = s.drop_last();
        law_tokens_in_range(chars, before);
        law_token_decodes(chars, s.last());
        let tokens = tokens_of(chars, s);
        assert forall|i: int| 0 <= i < tokens.len() implies #[trigger] tokens[i] < chars.len() by {
            if i < tokens_of(chars, before).len() {
                assert(tokens[i] == tokens_of(chars, before)[i]);
            }
        }
    }
}

/// The tokens of two texts, one after the other, are those of the first and those of the second.
pub proof fn law_tokens_of_two_texts(chars: Seq<char>, a: Seq<char>, b: Seq<char>)
    ensures
        tokens_of(chars, a + b) == tokens_of(chars, a) + tokens_of(chars, b),
    decreases b.len(),
{
    if b.len() == 0 {
        assert(a + b == a);
        assert(tokens_of(chars, a) + Seq::<u32>::empty() == tokens_of(chars, a));
    } else {
        let both = a + b;
        law_tokens_of_two_texts(chars, a, b.drop_last());
        assert(both.drop_last() == a + b.drop_last());
        assert(both.last() == b.last());
        if let Some(t) = token_of(chars, b.last()) {
            assert((tokens_of(chars, a) + tokens_of(chars, b.drop_last())).push(t) == tokens_of(
                chars,
                a,
            ) + tokens_of(chars, b.drop_last()).push(t));
        }
    }
}

/// A text is encoded without loss by its own vocabulary.
pub proof fn law_own_text_is_encoded_whole(chars: Seq<char>, s: Seq<char>)
    requires
        increasing(chars),
        forall|c: char| chars.contains(c) <==> s.contains(c),
    ensures
        tokens_of(chars, s).len() == s.len(),
        forall|i: int|
            0 <= i < s.len() ==> char_of(chars, #[trigger] tokens_of(chars, s)[i]) == Some(s[i]),
{
    if chars.len() > 0 {
        lemma_increasing_bound(chars, chars.len() - 1);
        lemma_code_point_bound(chars.last());
    }
    assert forall|i: int| 0 <= i < s.len() implies chars.contains(#[trigger] s[i]) by {
        assert(s.contains(s[i]));
    }
    law_encoded_text_decodes(chars, s);
}

/// Increasing characters are determined by which characters they are.
pub proof fn law_increasing_is_determined(a: Seq<char>, b: Seq<char>)
    requires
        increasing(a),
        increasing(b),
        forall|c: char| a.contains(c) <==> b.contains(c),
    ensures
        a == b,
    decreases a.len(),
{
    if a.len() == 0 {
        if b.len() > 0 {
            assert(b.contains(b[0]));
        }
        assert(a == b);
    } else {
        assert(a.contains(a[a.len() - 1]));
        assert(b.contains(a.last()));
        let i = choose|i: int| 0 <= i < b.len() && b[i] == a.last();
        assert(b.contains(b[b.len() - 1]));
        assert(a.contains(b.last()));
        let j = choose|j: int| 0 <= j < a.len() && a[j] == b.last();
        assert(b[i] <= b.last());
        assert(a[j] <= a.last());
        assert(a.last() == b.last());
        let x = a.drop_last();
        let y = b.drop_last();
        assert forall|c: char| x.contains(c) <==> y.contains(c) by {
            if x.contains(c) {
                let k = choose|k: int| 0 <= k < x.len() && x[k] == c;
                assert(a[k] == c);
                assert(a.contains(c));
                let l = choose|l: int| 0 <= l < b.len() && b[l] == c;
                assert(a[k] < a.last());
                assert(y[l] == c);
            }
            if y.contains(c) {
                let k = choose|k: int| 0 <= k < y.len() && y[k] == c;
                assert(b[k] == c);
                assert(b.contains(c));
                let l = choose|l: int| 0 <= l < a.len() && a[l] == c;
                assert(b[k] < b.last());
                assert(x[l] == c);
            }
        }
        law_increasing_is_determined(x, y);
        assert(a == x.push(a.last()));
        assert(b == y.push(b.last()));
    }
}

/// A token below the number of characters stands for the character at its place, and no other
/// token stands for any.
pub proof fn law_char_at_its_place(chars: Seq<char>, id: u32)
    ensures
        id < chars.len() ==> char_of(chars, id) == Some(chars[id as int]),
        id >= chars.len() ==> char_of(chars, id) is None,
{
}

/// The token of a character is the last place at which it stands, and a character that stands
/// nowhere has none. A text is encoded character by character, in its order, and characters without
/// a token are left out.
pub proof fn law_token_is_last_place(chars: Seq<char>, c: char, s: Seq<char>)
    ensures
        (forall|j: int| 0 <= j < chars.len() ==> #[trigger] chars[j] != c) ==> token_of(chars, c)
            == None::<u32>,
        (exists|j: int| 0 <= j < chars.len() && #[trigger] chars[j] == c) ==> exists|k: int|
            {
                &&& 0 <= k < chars.len()
                &&& #[trigger] chars[k] == c
                &&& forall|j: int| k < j < chars.len() ==> #[trigger] chars[j] != c
                &&& token_of(chars, c) == Some(k as u32)
            },
        tokens_of(chars, Seq::empty()).len() == 0,
        tokens_of(chars, s.push(c)) == tokens_of(chars, s) + (match token_of(chars, c) {
            Some(t) => seq![t],
            None => Seq::empty(),
        }),
{
    lemma_last_index(chars, c);
    if exists|j: int| 0 <= j < chars.len() && #[trigger] chars[j] == c {
        let k = last_index(chars, c);
        assert(chars.contains(c));
        assert(chars[k] == c);
    }
    assert(s.push(c).drop_last() == s);
}

/// The text of a vocabulary has the code point of each character in decimal, in order, each behind
/// the line ending of the one before it; a line ending stands at the end.
pub proof fn law_saved_one_more(chars: Seq<char>, c: char)
    ensures
        saved(Seq::empty()) == seq!['\n'],
        saved(chars.push(c)) == (if chars.len() == 0 {
            Seq::empty()
        } else {
            saved(chars)
        }) + number::decimal(c as nat) + seq!['\n'],
{
    let all = chars.push(c);
    assert(all.drop_last() == chars);
    if chars.len() == 0 {
        assert(all[0] == c);
        assert(joined_codes(Seq::<char>::empty()) == Seq::<char>::empty());
    }
}

/// A vocabulary is read line by line: an empty line adds nothing, the code point of a character
/// adds that character, and the first line that is neither is the error.
pub proof fn law_read_line_by_line(line: Seq<char>, rest: Seq<Seq<char>>)
    ensures
        read_chars(Seq::empty()) == Ok::<Seq<char>, Seq<char>>(Seq::empty()),
        line.len() == 0 ==> read_chars(seq![line] + rest) == read_chars(rest),
        line.len() > 0 ==> match number::u32_value(line) {
            Some(n) => if n <= 0xD7FF || 0xE000 <= n <= 0x10FFFF {
                match read_chars(rest) {
                    Ok(chars) => read_chars(seq![line] + rest) == Ok::<Seq<char>, Seq<char>>(
                        seq![n as char] + chars,
                    ),
                    Err(bad) => read_chars(seq![line] + rest) == Err::<Seq<char>, Seq<char>>(bad),
                }
            } else {
                read_chars(seq![line] + rest) == Err::<Seq<char>, Seq<char>>(line)
            },
            None => read_chars(seq![line] + rest) == Err::<Seq<char>, Seq<char>>(line),
        },
{
    let all = seq![line] + rest;
    assert(all[0] == line);
    assert(all.skip(1) == rest);
}

} // verus!
