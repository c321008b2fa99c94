use vstd::prelude::*;
use crate::geometry::{Coordinate, Orientation};

verus! {

/// The characters that separate words of player input.
pub open spec fn is_blank(c: char) -> bool {
    c == ' ' || c == '\t' || c == '\n' || c == '\r'
}

/// The maximal runs of non-blank characters of `s`, in order.
pub open spec fn words(s: Seq<char>) -> Seq<Seq<char>>
    decreases s.len(),
{
    if s.len() == 0 {
        Seq::empty()
    } else {
        let w = words(s.drop_last());
        let c = s.last();
        if is_blank(c) {
            w
        } else if s.len() >= 2 && !is_blank(s[s.len() - 2]) {
            w.update(w.len() - 1, w.last().push(c))
        } else {
            w.push(seq![c])
        }
    }
}

pub open spec fn is_digit(c: char) -> bool {
    '0' <= c <= '9'
}

/// The value of a string of decimal digits, most significant first.
pub open spec fn digits_value(t: Seq<char>) -> nat
    decreases t.len(),
{
    if t.len() == 0 {
        0
    } else {
        digits_value(t.drop_last()) * 10 + (t.last() as nat - '0' as nat) as nat
    }
}

/// The byte that the word `t` spells in decimal, if it is one.
pub open spec fn byte_of(t: Seq<char>) -> Option<u8> {
    if t.len() >= 1 && (forall|i: int| 0 <= i < t.len() ==> is_digit(#[trigger] t[i])) && digits_value(t) <= 255 {
        Some(digits_value(t) as u8)
    } else {
        None
    }
}

/// The coordinate that a line of input names: exactly two words, each a
/// decimal number from 0 to 255, the column first.
pub open spec fn coordinate_of(s: Seq<char>) -> Option<(u8, u8)> {
    let w = words(s);
    if w.len() == 2 && byte_of(w[0]) is Some && byte_of(w[1]) is Some {
        Some((byte_of(w[0])->Some_0, byte_of(w[1])->Some_0))
    } else {
        None
    }
}

/// The orientation that a line of input names: horizontal for the single
/// word `h`, vertical for anything else.
pub open spec fn orientation_of(s: Seq<char>) -> Orientation {
    if words(s) == seq![seq!['h']] {
        Orientation::Horizontal
    } else {
        Orientation::Vertical
    }
}

proof fn lemma_digits_value_grows(t: Seq<char>, m: int)
    requires
        0 <= m <= t.len(),
        forall|i: int| 0 <= i < t.len() ==> is_digit(#[trigger] t[i]),
    ensures
        digits_value(t.take(m)) <= digits_value(t),
    decreases t.len(),
{
    if m < t.len() {
        assert(t.drop_last().take(m) =~= t.take(m));
        assert forall|i: int| 0 <= i < t.drop_last().len() implies is_digit(#[trigger] t.drop_last()[i]) by {
            assert(t.drop_last()[i] == t[i]);
        }
        lemma_digits_value_grows(t.drop_last(), m);
    } else {
        assert(t.take(m) =~= t);
    }
}

/// Splits a line into its words.
pub fn split_words(line: &[char]) -> (r: Vec<Vec<char>>)
    ensures
        r@.map_values(|w: Vec<char>| w@) == words(line@),
{
    let mut done: Vec<Vec<char>> = Vec::new();
    let mut current: Vec<char> = Vec::new();
    let mut i: usize = 0;
    while i < line.len()
        invariant
            i <= line@.len(),
            current@.len() > 0 <==> (i > 0 && !is_blank(line@[i - 1])),
            words(line@.take(i as int)) == if current@.len() > 0 {
                done@.map_values(|w: Vec<char>| w@).push(current@)
            } else {
                done@.map_values(|w: Vec<char>| w@)
            },
        decreases line@.len() - i,
    {
        let c = line[i];
        let ghost prefix = line@.take(i + 1);
        proof {
            assert(prefix.drop_last() =~= line@.take(i as int));
            assert(prefix.last() == c);
            if i > 0 {
                assert(prefix[prefix.len() - 2] == line@[i - 1]);
            }
        }
        if c == ' ' || c == '\t' || c == '\n' || c == '\r' {
            if current.len() > 0 {
                let ghost before = done@;
                done.push(current);
                current = Vec::new();
                proof {
                    assert(done@.map_values(|w: Vec<char>| w@) =~= before.map_values(|w: Vec<char>| w@).push(
                        done@[done@.len() - 1]@,
                    ));
                }
            }
        } else {
            let ghost before = current@;
            current.push(c);
            proof {
                if before.len() > 0 {
                    let w = done@.map_values(|w: Vec<char>| w@).push(before);
                    assert(w.update(w.len() - 1, w.last().push(c)) =~= done@.map_values(|w: Vec<char>| w@).push(
                        current@,
                    ));
                } else {
                    assert(before.push(c) =~= seq![c]);
                }
            }
        }
        i = i + 1;
    }
    proof {
        assert(line@.take(line@.len() as int) =~= line@);
    }
    if current.len() > 0 {
        let ghost before = done@;
        done.push(current);
        proof {
            assert(done@.map_values(|w: Vec<char>| w@) =~= before.map_values(|w: Vec<char>| w@).push(
                done@[done@.len() - 1]@,
            ));
        }
    }
    done
}

/// The byte that `word` spells in decimal, if it is one.
pub fn parse_byte(word: &Vec<char>) -> (r: Option<u8>)
    ensures
        r == byte_of(word@),
{
    if word.len() == 0 {
        return None;
    }
    let mut value: u32 = 0;
    let mut i: usize = 0;
    while i < word.len()
        invariant
            1 <= word@.len(),
            i <= word@.len(),
            forall|j: int| 0 <= j < i ==> is_digit(#[trigger] word@[j]),
            value == digits_value(word@.take(i as int)),
            value <= 255,
        decreases word@.len() - i,
    {
        let c = word[i];
        proof {
            assert(word@.take(i + 1).drop_last() =~= word@.take(i as int));
        }
        if !('0' <= c && c <= '9') {
            return None;
        }
        value = value * 10 + (c as u32 - '0' as u32);
        if value > 255 {
            proof {
                if forall|j: int| 0 <= j < word@.len() ==> is_digit(#[trigger] word@[j]) {
                    lemma_digits_value_grows(word@, i + 1);
                }
            }
            return None;
        }
        i = i + 1;
    }
    proof {
        assert(word@.take(word@.len() as int) =~= word@);
    }
    Some(value as u8)
}

/// The coordinate named by a line of input: two decimal numbers, the column first.
pub fn parse_coordinate(line: &[char]) -> (r: Option<Coordinate>)
    ensures
        r matches Some(c) ==> coordinate_of(line@) == Some((c.x, c.y)),
        r is None ==> coordinate_of(line@) is None,
{
    let parts = split_words(line);
    proof {
        assert(parts@.len() == words(line@).len());
    }
    if parts.len() != 2 {
        return None;
    }
    proof {
        assert(parts@[0]@ == words(line@)[0]);
        assert(parts@[1]@ == words(line@)[1]);
    }
    match (parse_byte(&parts[0]), parse_byte(&parts[1])) {
        (Some(x), Some(y)) => Some(Coordinate { x, y }),
        _ => None,
    }
}

/// The orientation named by a line of input: horizontal for `h`, vertical otherwise.
pub fn parse_orientation(line: &[char]) -> (r: Orientation)
    ensures
        r == orientation_of(line@),
{
    let parts = split_words(line);
    proof {
        assert(parts@.len() == words(line@).len());
    }
    if parts.len() == 1 && parts[0].len() == 1 && parts[0][0] == 'h' {
        proof {
            assert(parts@[0]@ == words(line@)[0]);
            assert(words(line@)[0] =~= seq!['h']);
            assert(words(line@) =~= seq![seq!['h']]);
        }
        Orientation::Horizontal
    } else {
        proof {
            if words(line@) == seq![seq!['h']] {
                assert(parts@[0]@ == words(line@)[0]);
            }
        }
        Orientation::Vertical
    }
}

} // verus!
