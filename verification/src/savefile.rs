use vstd::prelude::*;

verus! {

/// Whether a byte is an ASCII decimal digit.
pub open spec fn is_digit(b: u8) -> bool {
    48 <= b <= 57
}

/// Whether every byte of `s` is a decimal digit.
pub open spec fn all_digits(s: Seq<u8>) -> bool {
    forall|i: int| 0 <= i < s.len() ==> is_digit(#[trigger] s[i])
}

/// The number a run of decimal digits writes.
pub open spec fn digits_value(s: Seq<u8>) -> nat
    decreases s.len(),
{
    if s.len() == 0 {
        0
    } else {
        digits_value(s.drop_last()) * 10 + (s.last() - 48) as nat
    }
}

/// The digits of an unsigned number as text writes it: an optional `+` sign
/// before them.
pub open spec fn unsigned_digits(word: Seq<u8>) -> Seq<u8> {
    if word.len() > 0 && word[0] == 43 {
        word.drop_first()
    } else {
        word
    }
}

/// The unsigned number a word writes, as the standard library reads it: at
/// least one digit after an optional `+`, nothing else, and a value of at most
/// `max`; `None` for anything else.
pub open spec fn parsed_unsigned(word: Seq<u8>, max: nat) -> Option<nat> {
    let d = unsigned_digits(word);
    if d.len() > 0 && all_digits(d) && digits_value(d) <= max {
        Some(digits_value(d))
    } else {
        None
    }
}

/// Where the word starting at `i` ends: at the first space from `i` on, or at
/// the end of the line.
pub open spec fn word_end(line: Seq<u8>, i: int) -> int
    decreases line.len() - i,
{
    if i < 0 || i >= line.len() {
        line.len() as int
    } else if line[i] == 32 {
        i
    } else {
        word_end(line, i + 1)
    }
}

/// The first word of a line: everything before its first space.
pub open spec fn first_word(line: Seq<u8>) -> Seq<u8> {
    line.take(word_end(line, 0))
}

proof fn lemma_digits_monotone(s: Seq<u8>, i: int, j: int)
    requires
        0 <= i <= j <= s.len(),
        all_digits(s),
    ensures
        digits_value(s.take(i)) <= digits_value(s.take(j)),
    decreases j - i,
{
    if i < j {
        lemma_digits_monotone(s, i, j - 1);
        assert(s.take(j).drop_last() =~= s.take(j - 1));
    }
}

/// Reads the unsigned number of at most `max` written by `word`.
fn parse_unsigned(word: &[u8], max: u64) -> (r: Option<u64>)
    requires
        max <= u32::MAX,
    ensures
        match parsed_unsigned(word@, max as nat) {
            Some(v) => r == Some(v as u64),
            None => r is None,
        },
{
    let ghost d = unsigned_digits(word@);
    let start: usize = if word.len() > 0 && word[0] == 43 {
        1
    } else {
        0
    };
    proof {
        assert(d =~= word@.subrange(start as int, word@.len() as int));
    }
    if start >= word.len() {
        return None;
    }
    let mut acc: u64 = 0;
    let mut i: usize = start;
    while i < word.len()
        invariant
            start <= i <= word@.len(),
            max <= u32::MAX,
            d == word@.subrange(start as int, word@.len() as int),
            d == unsigned_digits(word@),
            all_digits(d.take(i - start)),
            acc as nat == digits_value(d.take(i - start)),
            acc <= max,
        decreases word@.len() - i,
    {
        let b = word[i];
        let ghost k: int = i - start;
        if b < 48 || b > 57 {
            proof {
                assert(!is_digit(d[k]));
            }
            return None;
        }
        proof {
            assert(d.take(k + 1).drop_last() =~= d.take(k));
            assert(d.take(k + 1).last() == b);
        }
        let next: u64 = acc * 10 + (b - 48) as u64;
        if next > max {
            proof {
                if all_digits(d) {
                    lemma_digits_monotone(d, k + 1, d.len() as int);
                    assert(d.take(d.len() as int) =~= d);
                }
            }
            return None;
        }
        acc = next;
        i = i + 1;
        proof {
            assert forall|j: int| 0 <= j < i - start implies is_digit(#[trigger] d.take(i - start)[j]) by {
                if j < k {
                    assert(d.take(i - start)[j] == d.take(k)[j]);
                }
            }
        }
    }
    proof {
        assert(d.take(i - start) =~= d);
    }
    Some(acc)
}

/// Reads the number a saved seed or planet-type line starts with: the first
/// word of the line (everything before the first space) as an unsigned number of
/// at most `max`, or `None` where that word is not one.
pub fn line_number(line: &Vec<u8>, max: u64) -> (r: Option<u64>)
    requires
        max <= u32::MAX,
    ensures
        match parsed_unsigned(first_word(line@), max as nat) {
            Some(v) => r == Some(v as u64),
            None => r is None,
        },
{
    let mut i: usize = 0;
    while i < line.len() && line[i] != 32
        invariant
            0 <= i <= line@.len(),
            word_end(line@, 0) == word_end(line@, i as int),
        decreases line@.len() - i,
    {
        i = i + 1;
    }
    let word = &line.as_slice()[0..i];
    proof {
        assert(word_end(line@, i as int) == i);
        assert(word@ =~= first_word(line@));
    }
    parse_unsigned(word, max)
}

} // verus!
