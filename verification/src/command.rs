//! The commands that the puzzle takes, the two sizes that they set, and
//! the tags that stand for commands in a story.

use vstd::prelude::*;
use vstd::slice::slice_index_get;
use vstd::string::StringSliceAdditionalSpecFns;

verus! {

/// A command to the puzzle.
#[derive(Clone, Copy, Debug, PartialEq, Eq, Structural)]
pub enum Action {
    /// Make a new network with the sizes in force.
    Reset,
    /// Take back the last step of contraction.
    Bigger,
    /// Let the field push the nodes apart.
    MoveOutwards,
    /// Set the size of the network, then the number of circles, for the
    /// next `Reset`.
    Size(usize, usize),
}

/// The two sizes that govern how a network is made.
#[derive(Clone, Copy, Debug, PartialEq, Eq, Structural)]
pub struct Cfg {
    /// The number of circles that the topology is built from.
    pub num_circles: usize,
    /// The number of nodes down to which the topology is contracted.
    pub limit_nodes: usize,
}

impl Default for Cfg {
    fn default() -> (cfg: Self)
        ensures
            cfg == (Cfg { num_circles: 10, limit_nodes: 6 }),
    {
        Cfg { num_circles: 10, limit_nodes: 6 }
    }
}

impl Cfg {
    /// The sizes after `action`: a `Size` sets both, any other command
    /// leaves them as they are.
    pub open spec fn after(self, action: Action) -> Cfg {
        match action {
            Action::Size(graph_size, number_of_circles) => Cfg {
                num_circles: number_of_circles,
                limit_nodes: graph_size,
            },
            _ => self,
        }
    }

    /// Whether the sizes are in their ranges: two circles or more, and a
    /// network of one node or more.
    pub open spec fn in_range(self) -> bool {
        self.num_circles >= 2 && self.limit_nodes >= 1
    }

    /// Whether the sizes are in their ranges.
    pub fn is_in_range(&self) -> (r: bool)
        ensures
            r == self.in_range(),
    {
        self.num_circles >= 2 && self.limit_nodes >= 1
    }

    /// Takes the sizes from a `Size` command; any other command changes
    /// nothing.
    pub fn network_size(&mut self, action: &Action)
        ensures
            *final(self) == old(self).after(*action),
    {
        match action {
            Action::Size(graph_size, number_of_circles) => {
                self.num_circles = *number_of_circles;
                self.limit_nodes = *graph_size;
            },
            _ => {},
        }
    }
}

/// The bytes of `RESET`.
pub open spec fn reset_tag() -> Seq<u8> {
    seq![82u8, 69u8, 83u8, 69u8, 84u8]
}

/// The bytes of `ADD`.
pub open spec fn add_tag() -> Seq<u8> {
    seq![65u8, 68u8, 68u8]
}

/// The bytes of `SIZE` and a space.
pub open spec fn size_prefix() -> Seq<u8> {
    seq![83u8, 73u8, 90u8, 69u8, 32u8]
}

/// Whether `b` is a decimal digit.
pub open spec fn is_digit(b: u8) -> bool {
    48 <= b <= 57
}

/// The number that a row of decimal digits stands for.
pub open spec fn digits_value(digits: Seq<u8>) -> nat
    decreases digits.len(),
{
    if digits.len() == 0 {
        0
    } else {
        digits_value(digits.drop_last()) * 10 + (digits.last() - 48) as nat
    }
}

/// The word without the plus sign that it may begin with.
pub open spec fn unsigned_part(word: Seq<u8>) -> Seq<u8> {
    if word.len() > 0 && word[0] == 43 {
        word.drop_first()
    } else {
        word
    }
}

/// Whether every byte is a decimal digit.
pub open spec fn all_digits(bytes: Seq<u8>) -> bool {
    forall|i: int| 0 <= i < bytes.len() ==> is_digit(#[trigger] bytes[i])
}

/// The number that a word stands for: one decimal digit or more, after a
/// plus sign or none, with a value of at most `usize::MAX`. Any other word
/// stands for no number.
pub open spec fn word_number(word: Seq<u8>) -> Option<usize> {
    let digits = unsigned_part(word);
    if digits.len() > 0 && all_digits(digits) && digits_value(digits) <= usize::MAX {
        Some(digits_value(digits) as usize)
    } else {
        None
    }
}

/// The words of a text: what stands between one space and the next, or
/// between a space and an end of the text. Two spaces in a row have an
/// empty word between them.
pub open spec fn words(text: Seq<u8>) -> Seq<Seq<u8>>
    decreases text.len(),
{
    if text.len() == 0 {
        seq![Seq::<u8>::empty()]
    } else {
        let before = words(text.drop_last());
        if text.last() == 32 {
            before.push(Seq::<u8>::empty())
        } else {
            before.drop_last().push(before.last().push(text.last()))
        }
    }
}

/// The numbers among the words, in the order of the words.
pub open spec fn numbers(words: Seq<Seq<u8>>) -> Seq<usize>
    decreases words.len(),
{
    if words.len() == 0 {
        Seq::empty()
    } else {
        let before = numbers(words.drop_last());
        match word_number(words.last()) {
            Some(n) => before.push(n),
            None => before,
        }
    }
}

/// The command that a tag stands for: `RESET` for a reset, `ADD` for a
/// bigger network, and `SIZE`, a space and a text for the two sizes, which
/// are the first two numbers among the words of the text. A `SIZE` tag
/// with fewer than two numbers, and any other tag, stands for no command.
pub open spec fn action_of(tag: Seq<u8>) -> Option<Action> {
    if tag == reset_tag() {
        Some(Action::Reset)
    } else if tag == add_tag() {
        Some(Action::Bigger)
    } else if tag.len() >= 5 && tag.subrange(0, 5) == size_prefix() {
        let found = numbers(words(tag.skip(5)));
        if found.len() >= 2 {
            Some(Action::Size(found[0], found[1]))
        } else {
            None
        }
    } else {
        None
    }
}

/// There is always a word, if only an empty one.
proof fn lemma_words_nonempty(text: Seq<u8>)
    ensures
        words(text).len() > 0,
    decreases text.len(),
{
    if text.len() > 0 {
        lemma_words_nonempty(text.drop_last());
    }
}

/// What is known of a word while it is being read.
struct WordState {
    /// Whether nothing of the word has been read.
    empty: bool,
    /// Whether every byte after the sign, if any, was a digit.
    clean: bool,
    /// Whether a byte after the sign, if any, has been read.
    digit_seen: bool,
    /// Whether the value of the digits still fits.
    fits: bool,
    /// The value of the digits, while it fits.
    value: usize,
}

impl WordState {
    /// Whether the state is that of `word`.
    spec fn describes(self, word: Seq<u8>) -> bool {
        let digits = unsigned_part(word);
        &&& self.empty == (word.len() == 0)
        &&& self.clean == all_digits(digits)
        &&& self.digit_seen == (digits.len() > 0)
        &&& self.clean ==> self.fits == (digits_value(digits) <= usize::MAX)
        &&& self.clean && self.fits ==> self.value == digits_value(digits)
    }

    /// The state of the empty word.
    fn start() -> (state: Self)
        ensures
            state.describes(Seq::<u8>::empty()),
    {
        WordState { empty: true, clean: true, digit_seen: false, fits: true, value: 0 }
    }

    /// The state after one more byte of the word, which is no space.
    fn read(self, b: u8, Ghost(word): Ghost<Seq<u8>>) -> (state: Self)
        requires
            self.describes(word),
        ensures
            state.describes(word.push(b)),
    {
        let ghost digits = unsigned_part(word);
        let ghost longer = word.push(b);
        if self.empty && b == 43 {
            proof {
                assert(unsigned_part(longer) =~= Seq::<u8>::empty());
            }
            return WordState { empty: false, clean: true, digit_seen: false, fits: true, value: 0 };
        }
        proof {
            assert(unsigned_part(longer) =~= digits.push(b));
            assert(digits.push(b).drop_last() =~= digits);
            assert(all_digits(digits.push(b)) == (all_digits(digits) && is_digit(b))) by {
                if all_digits(digits) && is_digit(b) {
                    assert forall|i: int| 0 <= i < digits.push(b).len() implies is_digit(
                        #[trigger] digits.push(b)[i],
                    ) by {
                        if i < digits.len() {
                            assert(digits.push(b)[i] == digits[i]);
                        }
                    }
                }
                if all_digits(digits.push(b)) {
                    assert(is_digit(digits.push(b)[digits.len() as int]));
                    assert forall|i: int| 0 <= i < digits.len() implies is_digit(
                        #[trigger] digits[i],
                    ) by {
                        assert(digits.push(b)[i] == digits[i]);
                    }
                }
            }
        }
        if !(48 <= b && b <= 57) || !self.clean {
            return WordState { empty: false, clean: false, digit_seen: true, fits: false, value: 0 };
        }
        let d: usize = (b - 48) as usize;
        if self.fits && self.value <= (usize::MAX - d) / 10 {
            WordState { empty: false, clean: true, digit_seen: true, fits: true, value: self.value
                * 10 + d }
        } else {
            WordState { empty: false, clean: true, digit_seen: true, fits: false, value: 0 }
        }
    }

    /// The number that the word stands for, now that it is complete.
    fn number(&self, Ghost(word): Ghost<Seq<u8>>) -> (r: Option<usize>)
        requires
            self.describes(word),
        ensures
            r == word_number(word),
    {
        if self.clean && self.digit_seen && self.fits {
            Some(self.value)
        } else {
            None
        }
    }
}

/// The numbers among the words of the text that follows a `SIZE` tag's
/// prefix.
fn size_numbers(bytes: &[u8]) -> (found: Vec<usize>)
    requires
        bytes@.len() >= 5,
    ensures
        found@ == numbers(words(bytes@.skip(5))),
{
    let ghost text = bytes@.skip(5);
    let mut found: Vec<usize> = Vec::new();
    let mut state = WordState::start();
    let mut i: usize = 5;
    proof {
        assert(text.subrange(0, 0) =~= Seq::<u8>::empty());
        assert(words(text.subrange(0, 0)) =~= seq![Seq::<u8>::empty()]);
        assert(words(text.subrange(0, 0)).drop_last() =~= Seq::<Seq<u8>>::empty());
    }
    while i < bytes.len()
        invariant
            5 <= i <= bytes.len(),
            text == bytes@.skip(5),
            words(text.subrange(0, i - 5)).len() > 0,
            state.describes(words(text.subrange(0, i - 5)).last()),
            found@ == numbers(words(text.subrange(0, i - 5)).drop_last()),
        decreases bytes.len() - i,
    {
        let b = *slice_index_get(bytes, i);
        let ghost before = words(text.subrange(0, i - 5));
        let ghost next = text.subrange(0, i - 4);
        proof {
            assert(next.drop_last() =~= text.subrange(0, i - 5));
            assert(next.last() == b);
            lemma_words_nonempty(next);
        }
        if b == 32 {
            let finished = state.number(Ghost(before.last()));
            match finished {
                Some(n) => {
                    found.push(n);
                },
                None => {},
            }
            state = WordState::start();
            proof {
                assert(words(next) == before.push(Seq::<u8>::empty()));
                assert(words(next).drop_last() =~= before);
            }
        } else {
            state = state.read(b, Ghost(before.last()));
            proof {
                assert(words(next).drop_last() =~= before.drop_last());
            }
        }
        i = i + 1;
    }
    proof {
        assert(text.subrange(0, text.len() as int) =~= text);
    }
    let ghost all = words(text);
    match state.number(Ghost(all.last())) {
        Some(n) => {
            found.push(n);
        },
        None => {},
    }
    found
}

/// Whether the first bytes of `bytes` are those of `SIZE` and a space.
fn has_size_prefix(bytes: &[u8]) -> (r: bool)
    ensures
        r == (bytes@.len() >= 5 && bytes@.subrange(0, 5) == size_prefix()),
{
    if bytes.len() < 5 {
        return false;
    }
    let r = *slice_index_get(bytes, 0) == 83 && *slice_index_get(bytes, 1) == 73
        && *slice_index_get(bytes, 2) == 90 && *slice_index_get(bytes, 3) == 69
        && *slice_index_get(bytes, 4) == 32;
    proof {
        let head = bytes@.subrange(0, 5);
        if r {
            assert(head =~= size_prefix());
        } else {
            assert(head[0] == bytes@[0] && head[1] == bytes@[1] && head[2] == bytes@[2] && head[3]
                == bytes@[3] && head[4] == bytes@[4]);
            assert(size_prefix()[0] == 83 && size_prefix()[1] == 73 && size_prefix()[2] == 90
                && size_prefix()[3] == 69 && size_prefix()[4] == 32);
        }
    }
    r
}

/// Reads a story's tag as a command to the puzzle.
pub fn tag_action(tag: &str) -> (r: Option<Action>)
    ensures
        r == action_of(tag.spec_bytes()),
{
    let bytes = tag.as_bytes();
    let is_reset = bytes.len() == 5 && *slice_index_get(bytes, 0) == 82 && *slice_index_get(
        bytes,
        1,
    ) == 69 && *slice_index_get(bytes, 2) == 83 && *slice_index_get(bytes, 3) == 69
        && *slice_index_get(bytes, 4) == 84;
    proof {
        if is_reset {
            assert(bytes@ =~= reset_tag());
        } else if bytes@.len() == 5 {
            assert(reset_tag()[0] == 82 && reset_tag()[1] == 69 && reset_tag()[2] == 83
                && reset_tag()[3] == 69 && reset_tag()[4] == 84);
        }
        assert(reset_tag().len() == 5);
    }
    if is_reset {
        return Some(Action::Reset);
    }
    let is_add = bytes.len() == 3 && *slice_index_get(bytes, 0) == 65 && *slice_index_get(bytes, 1)
        == 68 && *slice_index_get(bytes, 2) == 68;
    proof {
        if is_add {
            assert(bytes@ =~= add_tag());
        } else if bytes@.len() == 3 {
            assert(add_tag()[0] == 65 && add_tag()[1] == 68 && add_tag()[2] == 68);
        }
        assert(add_tag().len() == 3);
    }
    if is_add {
        return Some(Action::Bigger);
    }
    if !has_size_prefix(bytes) {
        return None;
    }
    let found = size_numbers(bytes);
    if found.len() >= 2 {
        Some(Action::Size(found[0], found[1]))
    } else {
        None
    }
}

} // verus!
