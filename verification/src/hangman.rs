//! The rules of a game of hangman: the player guesses lower-case letters of
//! a secret word and has five incorrect guesses.
use vstd::prelude::*;
use vstd::string::StrSliceExecFns;
use vstd::string::StringExecFns;
use crate::word_count::{is_white_space, is_whitespace};
use crate::random::{below, fresh_rng};

verus! {

/// How many incorrect guesses the player has.
pub const NUM_INCORRECT_GUESSES: u32 = 5;

/// The character that stands for a letter not yet revealed.
pub const HIDDEN: char = '-';

/// The positions of `v` that hold `c`, in increasing order.
pub fn find_all_index_of_element(v: &Vec<char>, c: char) -> (r: Vec<usize>)
    ensures
        forall|k: int| 0 <= k < r@.len() ==> r@[k] < v@.len() && v@[r@[k] as int] == c,
        forall|i: int| 0 <= i < v@.len() && v@[i] == c ==> r@.contains(i as usize),
        forall|k: int, l: int| 0 <= k < l < r@.len() ==> r@[k] < r@[l],
{
    let mut indexs: Vec<usize> = Vec::new();
    let mut i: usize = 0;
    while i < v.len()
        invariant
            i <= v@.len(),
            forall|k: int| 0 <= k < indexs@.len() ==> indexs@[k] < i && v@[indexs@[k] as int] == c,
            forall|j: int| 0 <= j < i && v@[j] == c ==> indexs@.contains(j as usize),
            forall|k: int, l: int| 0 <= k < l < indexs@.len() ==> indexs@[k] < indexs@[l],
        decreases v@.len() - i,
    {
        if v[i] == c {
            let ghost before = indexs@;
            indexs.push(i);
            assert forall|j: int| 0 <= j < i + 1 && v@[j] == c implies indexs@.contains(
                j as usize,
            ) by {
                if j < i {
                    let k = choose|k: int| 0 <= k < before.len() && before[k] == j as usize;
                    assert(indexs@[k] == j as usize);
                } else {
                    assert(indexs@[before.len() as int] == i);
                }
            }
        }
        i = i + 1;
    }
    indexs
}

/// The pieces of `s` between newline characters, as `split('\n')` gives
/// them: one more piece than there are newlines.
pub open spec fn split_newlines(s: Seq<char>) -> Seq<Seq<char>>
    decreases s.len(),
{
    if s.len() == 0 {
        seq![Seq::empty()]
    } else {
        let p = split_newlines(s.drop_last());
        if s.last() == '\n' {
            p.push(Seq::empty())
        } else {
            p.update(p.len() - 1, p[p.len() - 1].push(s.last()))
        }
    }
}

/// `s` without its leading white space.
pub open spec fn trim_start(s: Seq<char>) -> Seq<char>
    decreases s.len(),
{
    if s.len() > 0 && is_white_space(s[0]) {
        trim_start(s.drop_first())
    } else {
        s
    }
}

/// `s` without its trailing white space.
pub open spec fn trim_end(s: Seq<char>) -> Seq<char>
    decreases s.len(),
{
    if s.len() > 0 && is_white_space(s.last()) {
        trim_end(s.drop_last())
    } else {
        s
    }
}

/// `s` without white space at either end, as `str::trim` gives it.
pub open spec fn trim(s: Seq<char>) -> Seq<char> {
    trim_end(trim_start(s))
}

proof fn lemma_split_newlines_nonempty(s: Seq<char>)
    ensures
        split_newlines(s).len() >= 1,
    decreases s.len(),
{
    if s.len() > 0 {
        lemma_split_newlines_nonempty(s.drop_last());
    }
}

/// Reading on never changes a piece that a newline has closed.
proof fn lemma_split_newlines_prefix(s: Seq<char>, i: int, j: int)
    requires
        0 <= i <= s.len(),
        0 <= j < split_newlines(s.take(i)).len() - 1,
    ensures
        j < split_newlines(s).len() - 1,
        split_newlines(s)[j] == split_newlines(s.take(i))[j],
    decreases s.len() - i,
{
    if i < s.len() {
        let t = s.take(i + 1);
        assert(t.drop_last() =~= s.take(i));
        lemma_split_newlines_nonempty(s.take(i));
        lemma_split_newlines_prefix(s, i + 1, j);
    } else {
        assert(s.take(i) =~= s);
    }
}

/// How many pieces `split('\n')` makes of `text`.
pub fn count_pieces(text: &str) -> (r: usize)
    requires
        text@.len() < usize::MAX,
    ensures
        r == split_newlines(text@).len(),
{
    let n = text.unicode_len();
    let mut count: usize = 1;
    let mut i: usize = 0;
    while i < n
        invariant
            i <= n,
            n == text@.len(),
            n < usize::MAX,
            count <= i + 1,
            count == split_newlines(text@.take(i as int)).len(),
        decreases n - i,
    {
        let c = text.get_char(i);
        assert(text@.take(i + 1).drop_last() =~= text@.take(i as int));
        proof {
            lemma_split_newlines_nonempty(text@.take(i as int));
        }
        if c == '\n' {
            count = count + 1;
        }
        i = i + 1;
    }
    assert(text@.take(n as int) =~= text@);
    count
}

/// `s` with white space cut from both ends.
fn trimmed(s: &str) -> (r: &str)
    ensures
        r@ == trim(s@),
{
    let n = s.unicode_len();
    let mut a: usize = 0;
    assert(s@.skip(0) =~= s@);
    while a < n && is_whitespace(s.get_char(a))
        invariant
            a <= n,
            n == s@.len(),
            trim_start(s@) == trim_start(s@.skip(a as int)),
        decreases n - a,
    {
        assert(s@.skip(a as int).drop_first() =~= s@.skip(a + 1));
        a = a + 1;
    }
    assert(trim_start(s@) == s@.subrange(a as int, n as int)) by {
        assert(s@.skip(a as int) =~= s@.subrange(a as int, n as int));
    }
    let mut b: usize = n;
    while b > a && is_whitespace(s.get_char(b - 1))
        invariant
            a <= b <= n,
            n == s@.len(),
            trim(s@) == trim_end(s@.subrange(a as int, b as int)),
        decreases b,
    {
        assert(s@.subrange(a as int, b as int).drop_last() =~= s@.subrange(a as int, b - 1));
        b = b - 1;
    }
    s.substring_char(a, b)
}

/// The word on line `index` of a word list, with white space trimmed.
pub fn pick_word(text: &str, index: usize) -> (r: String)
    requires
        index < split_newlines(text@).len(),
    ensures
        r@ == trim(split_newlines(text@)[index as int]),
{
    let n = text.unicode_len();
    let mut piece: usize = 0;
    let mut start: usize = 0;
    let mut i: usize = 0;
    proof {
        assert(text@.take(0) =~= Seq::<char>::empty());
    }
    while i < n
        invariant
            start <= i <= n,
            n == text@.len(),
            piece <= index,
            index < split_newlines(text@).len(),
            split_newlines(text@.take(i as int)).len() == piece + 1,
            split_newlines(text@.take(i as int))[piece as int] == text@.subrange(
                start as int,
                i as int,
            ),
        decreases n - i,
    {
        let c = text.get_char(i);
        let ghost p = split_newlines(text@.take(i as int));
        assert(text@.take(i + 1).drop_last() =~= text@.take(i as int));
        assert(text@.take(i + 1).last() == c);
        if c == '\n' {
            if piece == index {
                proof {
                    assert(split_newlines(text@.take(i + 1)) == p.push(Seq::empty()));
                    lemma_split_newlines_prefix(text@, i + 1, piece as int);
                }
                return String::from_str(trimmed(text.substring_char(start, i)));
            }
            piece = piece + 1;
            start = i + 1;
            i = i + 1;
            assert(text@.subrange(start as int, i as int) =~= Seq::<char>::empty());
        } else {
            i = i + 1;
            assert(text@.subrange(start as int, i as int) =~= text@.subrange(
                start as int,
                i - 1,
            ).push(c));
        }
    }
    proof {
        assert(text@.take(n as int) =~= text@);
    }
    String::from_str(trimmed(text.substring_char(start, n)))
}

/// A word drawn at random from a word list: the text of one of its lines,
/// with white space trimmed. Which line is drawn is left open.
pub fn pick_random_word(text: &str) -> (r: String)
    requires
        text@.len() < usize::MAX,
    ensures
        exists|i: int|
            0 <= i < split_newlines(text@).len() && r@ == trim(#[trigger] split_newlines(text@)[i]),
{
    let count = count_pieces(text);
    proof {
        lemma_split_newlines_nonempty(text@);
    }
    let mut rng = fresh_rng();
    let index = below(&mut rng, count);
    pick_word(text, index)
}

/// How many of the guesses are letters that the secret word lacks; a
/// repeated wrong guess counts each time.
pub open spec fn misses(guesses: Seq<char>, secret: Seq<char>) -> nat
    decreases guesses.len(),
{
    if guesses.len() == 0 {
        0
    } else {
        misses(guesses.drop_last(), secret) + if secret.contains(guesses.last()) {
            0nat
        } else {
            1nat
        }
    }
}

/// What the player sees of `secret` after guessing `guesses`: each letter
/// that was guessed, and the hidden mark elsewhere.
pub open spec fn shown(secret: Seq<char>, guesses: Seq<char>) -> Seq<char> {
    Seq::new(
        secret.len(),
        |i: int|
            if guesses.contains(secret[i]) {
                secret[i]
            } else {
                HIDDEN
            },
    )
}

/// The checked form of the player's input: exactly one lower-case letter.
pub open spec fn spec_parse_guess(input: Seq<char>) -> Option<char> {
    if input.len() == 1 && 'a' <= input[0] && input[0] <= 'z' {
        Some(input[0])
    } else {
        None
    }
}

/// Every lower-case ASCII letter, typed alone, is a guess of that letter.
pub proof fn law_every_lowercase_letter_is_a_guess(c: char)
    requires
        'a' <= c <= 'z',
    ensures
        spec_parse_guess(seq![c]) == Some(c),
{
}

/// A guess is only ever a lower-case ASCII letter typed alone, and it is
/// that letter.
pub proof fn law_a_guess_is_the_letter_typed(input: Seq<char>)
    ensures
        spec_parse_guess(input) matches Some(c) ==> input =~= seq![c] && 'a' <= c <= 'z',
        spec_parse_guess(input) is None ==> !(input.len() == 1 && 'a' <= input[0] <= 'z'),
{
}

/// The player's guess, when the (trimmed) input is exactly one lower-case
/// letter.
pub fn parse_guess(input: &Vec<char>) -> (r: Option<char>)
    ensures
        r == spec_parse_guess(input@),
{
    if input.len() != 1 {
        return None;
    }
    let c = input[0];
    if 'a' <= c && c <= 'z' {
        Some(c)
    } else {
        None
    }
}

/// Showing every position of the letter `c`, and nothing else, turns what
/// the guesses `old_guessed` show into what the same guesses and `c` show.
proof fn lemma_revealed(
    secret: Seq<char>,
    current: Seq<char>,
    indexs: Seq<usize>,
    c: char,
    old_guessed: Seq<char>,
    new_guessed: Seq<char>,
)
    requires
        secret.len() == current.len(),
        secret.len() <= usize::MAX,
        forall|i: int| 0 <= i < secret.len() && secret[i] == c ==> indexs.contains(i as usize),
        forall|m: int| 0 <= m < indexs.len() ==> indexs[m] < secret.len() && secret[indexs[m] as int] == c,
        forall|i: int|
            0 <= i < secret.len() && !(exists|m: int| 0 <= m < indexs.len() && indexs[m] == i)
                ==> current[i] == shown(secret, old_guessed)[i],
        forall|m: int| 0 <= m < indexs.len() ==> current[indexs[m] as int] == c,
        forall|x: char| #[trigger] new_guessed.contains(x) <==> (old_guessed.contains(x) || x == c),
    ensures
        current == shown(secret, new_guessed),
{
    assert forall|i: int| 0 <= i < secret.len() implies current[i] == shown(secret, new_guessed)[i] by {
        if secret[i] == c {
            assert(indexs.contains(i as usize));
            let m = choose|m: int| 0 <= m < indexs.len() && indexs[m] == i as usize;
            assert(current[indexs[m] as int] == c);
            assert(new_guessed.contains(c));
        } else {
            if exists|m: int| 0 <= m < indexs.len() && indexs[m] == i {
                let m = choose|m: int| 0 <= m < indexs.len() && indexs[m] == i;
                assert(secret[indexs[m] as int] == c);
            }
            assert(new_guessed.contains(secret[i]) == old_guessed.contains(secret[i]));
        }
    }
    assert(current =~= shown(secret, new_guessed));
}

/// A game in progress.
pub struct Hangman {
    secret: Vec<char>,
    current: Vec<char>,
    guessed: Vec<char>,
    remaining: u32,
}

impl Hangman {
    /// The word to be found.
    pub closed spec fn spec_secret(&self) -> Seq<char> {
        self.secret@
    }

    /// The letters guessed so far, in order.
    pub closed spec fn spec_guessed(&self) -> Seq<char> {
        self.guessed@
    }

    /// What the player sees of the word.
    pub closed spec fn spec_current(&self) -> Seq<char> {
        self.current@
    }

    /// The incorrect guesses left.
    pub closed spec fn spec_remaining(&self) -> u32 {
        self.remaining
    }

    /// The shown word is exactly the guessed letters of the secret, and every
    /// wrong guess has cost one of the five.
    pub closed spec fn wf(&self) -> bool {
        &&& self.current@ == shown(self.secret@, self.guessed@)
        &&& self.remaining + misses(self.guessed@, self.secret@) == NUM_INCORRECT_GUESSES
    }

    /// A new game on `secret`: nothing guessed, nothing shown, five
    /// incorrect guesses left.
    pub fn new(secret: Vec<char>) -> (g: Hangman)
        ensures
            g.wf(),
            g.spec_secret() == secret@,
            g.spec_guessed() == Seq::<char>::empty(),
            g.spec_current() == Seq::new(secret@.len(), |i: int| HIDDEN),
            g.spec_remaining() == NUM_INCORRECT_GUESSES,
    {
        let mut current: Vec<char> = Vec::new();
        let mut i: usize = 0;
        while i < secret.len()
            invariant
                i <= secret@.len(),
                current@ == Seq::new(i as nat, |j: int| HIDDEN),
            decreases secret@.len() - i,
        {
            current.push(HIDDEN);
            i = i + 1;
            assert(current@ =~= Seq::new(i as nat, |j: int| HIDDEN));
        }
        let g = Hangman { secret, current, guessed: Vec::new(), remaining: NUM_INCORRECT_GUESSES };
        assert(g.current@ =~= shown(g.secret@, g.guessed@));
        g
    }

    /// Plays the letter `c`: it joins the guesses, every position of the
    /// secret that holds it is shown, and a letter that the secret lacks
    /// costs one incorrect guess.
    #[verifier::loop_isolation(false)]
    pub fn guess(&mut self, c: char)
        requires
            old(self).wf(),
            old(self).spec_remaining() > 0,
        ensures
            final(self).wf(),
            final(self).spec_secret() == old(self).spec_secret(),
            final(self).spec_guessed() == old(self).spec_guessed().push(c),
            final(self).spec_remaining() == if old(self).spec_secret().contains(c) {
                old(self).spec_remaining()
            } else {
                (old(self).spec_remaining() - 1) as u32
            },
    {
        let ghost old_guessed = self.guessed@;
        self.guessed.push(c);
        let indexs = find_all_index_of_element(&self.secret, c);
        let ghost new_guessed = self.guessed@;
        assert(self.secret@.len() == self.secret.len());
        assert(new_guessed.drop_last() =~= old_guessed);
        assert(new_guessed.last() == c);
        assert forall|x: char| #[trigger] new_guessed.contains(x) <==> (old_guessed.contains(x)
            || x == c) by {
            if new_guessed.contains(x) {
                let k = choose|k: int| 0 <= k < new_guessed.len() && new_guessed[k] == x;
                if k < old_guessed.len() {
                    assert(old_guessed[k] == x);
                }
            }
            if old_guessed.contains(x) {
                let k = choose|k: int| 0 <= k < old_guessed.len() && old_guessed[k] == x;
                assert(new_guessed[k] == x);
            }
            if x == c {
                assert(new_guessed[old_guessed.len() as int] == c);
            }
        }
        if indexs.len() == 0 {
            proof {
                assert(!self.secret@.contains(c)) by {
                    if self.secret@.contains(c) {
                        let i = choose|i: int| 0 <= i < self.secret@.len() && self.secret@[i] == c;
                        assert(indexs@.contains(i as usize));
                    }
                }
                assert(self.current@ =~= shown(self.secret@, new_guessed));
            }
            self.remaining -= 1;
        } else {
            let ghost target = shown(self.secret@, new_guessed);
            let mut k: usize = 0;
            while k < indexs.len()
                invariant
                    k <= indexs@.len(),
                    self.secret@ == old(self).secret@,
                    self.guessed@ == new_guessed,
                    self.remaining == old(self).remaining,
                    self.secret@.len() == self.current@.len(),
                    self.secret@.len() <= usize::MAX,
                    target == shown(self.secret@, new_guessed),
                    forall|i: int|
                        0 <= i < self.secret@.len() && self.secret@[i] == c ==> indexs@.contains(
                            i as usize,
                        ),
                    forall|m: int| 0 <= m < indexs@.len() ==> indexs@[m] < self.secret@.len()
                        && self.secret@[indexs@[m] as int] == c,
                    forall|i: int|
                        0 <= i < self.secret@.len() && !(exists|m: int|
                            0 <= m < k && indexs@[m] == i) ==> self.current@[i] == shown(
                            self.secret@,
                            old_guessed,
                        )[i],
                    forall|m: int| 0 <= m < k ==> self.current@[indexs@[m] as int] == c,
                decreases indexs@.len() - k,
            {
                let idx = indexs[k];
                self.current.set(idx, c);
                k = k + 1;
            }
            proof {
                assert(self.secret@.contains(c)) by {
                    assert(self.secret@[indexs@[0] as int] == c);
                }
                lemma_revealed(self.secret@, self.current@, indexs@, c, old_guessed, new_guessed);
                assert(self.current@ =~= target);
            }
        }
    }

    /// The game is over: no incorrect guess is left, or nothing is hidden.
    #[verifier::loop_isolation(false)]
    pub fn is_finished(&self) -> (r: bool)
        ensures
            r == !(self.spec_remaining() > 0 && self.spec_current().contains(HIDDEN)),
    {
        if self.remaining == 0 {
            return true;
        }
        let mut i: usize = 0;
        while i < self.current.len()
            invariant
                i <= self.current@.len(),
                forall|j: int| 0 <= j < i ==> self.current@[j] != HIDDEN,
            decreases self.current@.len() - i,
        {
            if self.current[i] == HIDDEN {
                assert(self.current@[i as int] == HIDDEN);
                assert(self.spec_current().contains(HIDDEN));
                return false;
            }
            i = i + 1;
        }
        true
    }

    /// Whether the player won: the game ended with incorrect guesses left.
    pub fn has_won(&self) -> (r: bool)
        ensures
            r == (self.spec_remaining() != 0),
    {
        self.remaining != 0
    }

    /// What the player sees of the word.
    pub fn current_word(&self) -> (r: &Vec<char>)
        ensures
            r@ == self.spec_current(),
    {
        &self.current
    }

    /// The letters guessed so far.
    pub fn guessed_letters(&self) -> (r: &Vec<char>)
        ensures
            r@ == self.spec_guessed(),
    {
        &self.guessed
    }

    /// At every point of a game the player sees exactly the guessed letters
    /// of the word, and has five incorrect guesses minus those made.
    pub proof fn law_game_state(&self)
        requires
            self.wf(),
        ensures
            self.spec_current() == shown(self.spec_secret(), self.spec_guessed()),
            self.spec_remaining() + misses(self.spec_guessed(), self.spec_secret())
                == NUM_INCORRECT_GUESSES,
            self.spec_remaining() == 0 <==> misses(self.spec_guessed(), self.spec_secret())
                == NUM_INCORRECT_GUESSES,
    {
    }

    /// The incorrect guesses left.
    pub fn remaining_guesses(&self) -> (r: u32)
        ensures
            r == self.spec_remaining(),
    {
        self.remaining
    }
}

} // verus!
