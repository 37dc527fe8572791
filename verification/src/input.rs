//! Reading requests: the words of a stream of bytes, and the numbers that
//! the words spell.

use vstd::prelude::*;

verus! {

/// The greatest byte that separates words: the space. Every byte up to it,
/// control characters included, is blank.
pub const BLANK: u8 = 32;

/// The byte `0`, the first of the ten digits.
pub const ZERO: u8 = 48;

/// The byte `9`, the last of the ten digits.
pub const NINE: u8 = 57;

/// The byte `+`.
pub const PLUS: u8 = 43;

/// The byte `-`.
pub const MINUS: u8 = 45;

/// The greatest magnitude that a word can spell: that of the least `i32`.
pub const LIMIT: i64 = 0x8000_0000;

/// All of `s` are digits.
pub open spec fn all_digits(s: Seq<u8>) -> bool {
    forall|i: int| 0 <= i < s.len() ==> ZERO <= #[trigger] s[i] <= NINE
}

/// The number that the digits `s` spell in base ten; 0 for no digits.
pub open spec fn digits_value(s: Seq<u8>) -> int
    decreases s.len(),
{
    if s.len() == 0 {
        0
    } else {
        10 * digits_value(s.drop_last()) + (s.last() - ZERO)
    }
}

/// The digits of a word: the word without its sign, if it has one.
pub open spec fn digits_of(word: Seq<u8>) -> Seq<u8> {
    if word.len() > 0 && (word[0] == MINUS || word[0] == PLUS) {
        word.skip(1)
    } else {
        word
    }
}

/// The number that a word spells: an optional sign, then one digit or
/// more and nothing else, with a value that an `i32` holds. Every other
/// word spells none.
pub open spec fn spelled(word: Seq<u8>) -> Option<i32> {
    let digits = digits_of(word);
    let value = if word.len() > 0 && word[0] == MINUS {
        -digits_value(digits)
    } else {
        digits_value(digits)
    };
    if digits.len() > 0 && all_digits(digits) && i32::MIN <= value <= i32::MAX {
        Some(value as i32)
    } else {
        None
    }
}

/// The value of digits is never negative, and no smaller than the value of
/// the digits before any place.
pub proof fn lemma_digits_grow(s: Seq<u8>, n: int)
    requires
        all_digits(s),
        0 <= n <= s.len(),
    ensures
        0 <= digits_value(s.take(n)) <= digits_value(s),
    decreases s.len() - n,
{
    if n == s.len() {
        assert(s.take(n) =~= s);
        lemma_digits_nonnegative(s);
    } else {
        lemma_digits_grow(s, n + 1);
        lemma_digits_step(s, n);
    }
}

/// The value of digits is never negative.
pub proof fn lemma_digits_nonnegative(s: Seq<u8>)
    requires
        all_digits(s),
    ensures
        0 <= digits_value(s),
    decreases s.len(),
{
    if s.len() > 0 {
        let init = s.drop_last();
        assert forall|i: int| 0 <= i < init.len() implies ZERO <= #[trigger] init[i] <= NINE by {
            assert(init[i] == s[i]);
        }
        lemma_digits_nonnegative(init);
        assert(ZERO <= s[s.len() - 1] <= NINE);
    }
}

/// One digit more multiplies the value by ten and adds the digit.
pub proof fn lemma_digits_step(s: Seq<u8>, n: int)
    requires
        all_digits(s),
        0 <= n < s.len(),
    ensures
        digits_value(s.take(n + 1)) == 10 * digits_value(s.take(n)) + (s[n] - ZERO),
        0 <= digits_value(s.take(n)) <= digits_value(s.take(n + 1)),
{
    assert(s.take(n + 1).drop_last() =~= s.take(n));
    assert forall|i: int| 0 <= i < s.take(n).len() implies ZERO <= #[trigger] s.take(n)[i]
        <= NINE by {
        assert(s.take(n)[i] == s[i]);
    }
    lemma_digits_nonnegative(s.take(n));
    assert(ZERO <= s[n] <= NINE);
}

/// The number that `word` spells, if it spells one.
pub fn get(word: &[u8]) -> (n: Option<i32>)
    ensures
        n == spelled(word@),
{
    let len = word.len();
    if len == 0 {
        return None;
    }
    let negative = word[0] == MINUS;
    let start: usize = if word[0] == MINUS || word[0] == PLUS {
        1
    } else {
        0
    };
    let ghost digits = digits_of(word@);
    assert(digits =~= word@.skip(start as int));
    assert(forall|j: int| 0 <= j < digits.len() ==> digits[j] == word@[start + j]);
    let mut acc: i64 = 0;
    let mut i: usize = start;
    while i < len
        invariant
            start <= i <= len,
            len == word@.len(),
            digits == digits_of(word@),
            digits.len() == len - start,
            all_digits(digits.take(i - start)),
            acc == digits_value(digits.take(i - start)),
            forall|j: int| 0 <= j < digits.len() ==> digits[j] == word@[start + j],
            0 <= acc <= LIMIT,
        decreases len - i,
    {
        let b = word[i];
        assert(digits[i - start] == b);
        if b < ZERO || b > NINE {
            return None;
        }
        proof {
            let read = digits.take(i - start + 1);
            assert(all_digits(read)) by {
                assert forall|j: int| 0 <= j < read.len() implies ZERO <= #[trigger] read[j]
                    <= NINE by {
                    if j < i - start {
                        assert(digits.take(i - start)[j] == digits[j]);
                    }
                }
            }
            lemma_digits_step(read, i - start);
            assert(read.take(i - start) =~= digits.take(i - start));
            assert(read.take(i - start + 1) =~= read);
        }
        acc = acc * 10 + (b - ZERO) as i64;
        if acc > LIMIT {
            proof {
                if all_digits(digits) {
                    lemma_digits_grow(digits, i - start + 1);
                }
            }
            return None;
        }
        i += 1;
    }
    assert(digits.take(len - start) =~= digits);
    if i == start {
        None
    } else if negative {
        Some((-acc) as i32)
    } else if acc >= LIMIT {
        None
    } else {
        Some(acc as i32)
    }
}

/// Gathers the bytes of a stream into words: runs of bytes above `BLANK`.
pub struct WordReader {
    buf: Vec<u8>,
}

impl View for WordReader {
    type V = Seq<u8>;

    /// The bytes of the word that is being read.
    closed spec fn view(&self) -> Seq<u8> {
        self.buf@
    }
}

impl WordReader {
    /// A reader that has read nothing yet.
    pub fn new() -> (r: WordReader)
        ensures
            r@ == Seq::<u8>::empty(),
    {
        WordReader { buf: Vec::new() }
    }

    /// What a byte, or the end of the stream, ends: the word read so far, if
    /// it has a byte.
    pub open spec fn ended(read: Seq<u8>) -> Option<Seq<u8>> {
        if read.len() > 0 {
            Some(read)
        } else {
            None
        }
    }

    /// Takes the next byte of the stream, or `None` where the stream ends
    /// or cannot be read. A byte above `BLANK` joins the word that is being
    /// read. Anything else ends it: a word with a byte or more is handed
    /// out, and the reader starts afresh.
    pub fn feed(&mut self, byte: Option<u8>) -> (word: Option<Vec<u8>>)
        ensures
            match byte {
                Some(b) if b > BLANK => word is None && final(self)@ == old(self)@.push(b),
                _ => {
                    &&& final(self)@ == Seq::<u8>::empty()
                    &&& word is Some <==> old(self)@.len() > 0
                    &&& word is Some ==> word->0@ == old(self)@
                },
            },
    {
        match byte {
            Some(b) if b > BLANK => {
                self.buf.push(b);
                None
            },
            _ => {
                let mut word: Vec<u8> = Vec::new();
                std::mem::swap(&mut word, &mut self.buf);
                if word.len() >= 1 {
                    Some(word)
                } else {
                    None
                }
            },
        }
    }
}

} // verus!
