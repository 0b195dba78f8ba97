//! Counting the lines, words and bytes of a text, one line at a time, as
//! `wc` reports them.
use vstd::prelude::*;
use vstd::string::StrSliceExecFns;
use vstd::string::StringSliceAdditionalSpecFns;
use vstd::std_specs::iter::IteratorSpec;

verus! {

/// The characters with the Unicode `White_Space` property, which
/// `char::is_whitespace` recognises.
pub open spec fn is_white_space(c: char) -> bool {
    ('\u{9}' <= c && c <= '\u{d}') || c == ' ' || c == '\u{85}' || c == '\u{a0}' || c
        == '\u{1680}' || ('\u{2000}' <= c && c <= '\u{200a}') || c == '\u{2028}' || c
        == '\u{2029}' || c == '\u{202f}' || c == '\u{205f}' || c == '\u{3000}'
}

/// Whether `c` is white space.
pub fn is_whitespace(c: char) -> (r: bool)
    ensures
        r == is_white_space(c),
{
    ('\u{9}' <= c && c <= '\u{d}') || c == ' ' || c == '\u{85}' || c == '\u{a0}' || c
        == '\u{1680}' || ('\u{2000}' <= c && c <= '\u{200a}') || c == '\u{2028}' || c
        == '\u{2029}' || c == '\u{202f}' || c == '\u{205f}' || c == '\u{3000}'
}

/// The number of words of `s`: maximal runs of characters that are not
/// white space.
pub open spec fn word_count(s: Seq<char>) -> nat
    decreases s.len(),
{
    if s.len() == 0 {
        0
    } else {
        word_count(s.drop_last()) + if !is_white_space(s.last()) && (s.len() == 1
            || is_white_space(s[s.len() - 2])) {
            1nat
        } else {
            0nat
        }
    }
}

/// A word of `s` begins at position `i`: the character there is not white
/// space, and it is the first character or follows white space.
pub open spec fn starts_word(s: Seq<char>, i: int) -> bool {
    0 <= i < s.len() && !is_white_space(s[i]) && (i == 0 || is_white_space(s[i - 1]))
}

/// The number of words is the number of positions where a word begins,
/// that is, the number of maximal runs of characters that are not white
/// space.
pub proof fn law_words_are_maximal_runs(s: Seq<char>)
    ensures
        Set::new(|i: int| starts_word(s, i)).finite(),
        word_count(s) == Set::new(|i: int| starts_word(s, i)).len(),
    decreases s.len(),
{
    let starts = Set::new(|i: int| starts_word(s, i));
    if s.len() == 0 {
        assert(starts =~= Set::<int>::empty());
    } else {
        let p = s.drop_last();
        law_words_are_maximal_runs(p);
        let before = Set::new(|i: int| starts_word(p, i));
        let last = s.len() - 1;
        assert forall|i: int| i < last implies starts_word(s, i) == starts_word(p, i) by {
            if 0 <= i {
                assert(s[i] == p[i]);
                if i > 0 {
                    assert(s[i - 1] == p[i - 1]);
                }
            }
        }
        if starts_word(s, last) {
            assert(starts =~= before.insert(last));
        } else {
            assert(starts =~= before);
        }
    }
}

/// A text made only of white space, such as an empty line or `"\r\n"`,
/// has no word.
pub proof fn law_white_space_alone_has_no_words(s: Seq<char>)
    requires
        forall|i: int| 0 <= i < s.len() ==> is_white_space(#[trigger] s[i]),
    ensures
        word_count(s) == 0,
{
    law_words_are_maximal_runs(s);
    assert(Set::new(|i: int| starts_word(s, i)) =~= Set::<int>::empty());
}

/// Among ASCII characters, the white space is the space and the controls
/// tab, line feed, vertical tab, form feed and carriage return.
pub proof fn law_ascii_white_space(c: char)
    requires
        c <= '\u{7f}',
    ensures
        is_white_space(c) <==> (c == ' ' || c == '\t' || c == '\n' || c == '\u{b}' || c
            == '\u{c}' || c == '\r'),
{
}

/// The number of words of `line`, as `split_whitespace().count()` gives it.
pub fn count_words(line: &str) -> (r: usize)
    ensures
        r == word_count(line@),
{
    broadcast use vstd::string::group_string_axioms;

    let ghost text = line@;
    let n = line.unicode_len();
    let mut chars = line.chars();
    let mut count: usize = 0;
    let mut in_word = false;
    let mut i: usize = 0;
    assert(text.skip(0) =~= text);
    loop
        invariant
            i <= text.len(),
            text.len() == n,
            text == line@,
            chars.remaining() == text.skip(i as int),
            count <= i,
            count == word_count(text.take(i as int)),
            in_word == (i > 0 && !is_white_space(text[i - 1])),
        ensures
            count == word_count(text),
        decreases text.len() - i,
    {
        let ghost before = chars;
        match chars.next() {
            Some(c) => {
                assert(c == text[i as int]);
                let white = is_whitespace(c);
                assert(text.take(i + 1).drop_last() =~= text.take(i as int));
                if i > 0 {
                    assert(text.take(i + 1)[i - 1] == text[i - 1]);
                }
                if !white && !in_word {
                    count = count + 1;
                }
                in_word = !white;
                i = i + 1;
                assert(chars.remaining() =~= text.skip(i as int));
            },
            None => {
                assert(text.take(i as int) =~= text);
                break ;
            },
        }
    }
    count
}

/// Running totals over the lines read so far.
#[derive(Debug, Clone, Copy, PartialEq, Eq)]
pub struct Totals {
    pub lines: usize,
    pub words: usize,
    pub bytes: usize,
}

impl Totals {
    /// Nothing counted yet.
    pub fn new() -> (t: Totals)
        ensures
            t == (Totals { lines: 0, words: 0, bytes: 0 }),
    {
        Totals { lines: 0, words: 0, bytes: 0 }
    }

    /// Counts one line as read, end-of-line included: one more line, its
    /// words and its length in bytes.
    pub fn add_line(&mut self, line: &str)
        requires
            old(self).lines < usize::MAX,
            old(self).words + word_count(line@) <= usize::MAX,
            old(self).bytes + line.spec_bytes().len() <= usize::MAX,
        ensures
            final(self).lines == old(self).lines + 1,
            final(self).words == old(self).words + word_count(line@),
            final(self).bytes == old(self).bytes + line.spec_bytes().len(),
    {
        let line_len = line.len();
        self.bytes = self.bytes + line_len;
        self.words = self.words + count_words(line);
        self.lines = self.lines + 1;
    }
}

} // verus!
