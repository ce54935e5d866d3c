//! Records of a text model.
//!
//! A line that starts with `v ` is a vertex record and a line that starts
//! with `f ` is a face record; the record's body follows the two bytes of
//! the tag. The body of a face record holds vertex references that are
//! separated by white space. A reference is a vertex number, counted from
//! one, that other numbers may follow after a `/`. Only the first three
//! references of a line count.

use vstd::prelude::*;
use vstd::string::StringSliceAdditionalSpecFns;
use vstd::utf8::encode_utf8;

verus! {

/// What a line of a model file holds.
#[derive(Debug, Clone, Copy, PartialEq, Eq, Structural)]
pub enum RecordKind {
    /// A vertex: the line starts with `v `.
    Vertex,
    /// A face: the line starts with `f `.
    Face,
    /// Anything else.
    Other,
}

/// The kind of record that starts with the bytes `s`.
pub open spec fn spec_record_kind(s: Seq<u8>) -> RecordKind {
    if s.len() >= 2 && s[0] == 0x76 && s[1] == 0x20 {
        RecordKind::Vertex
    } else if s.len() >= 2 && s[0] == 0x66 && s[1] == 0x20 {
        RecordKind::Face
    } else {
        RecordKind::Other
    }
}

/// The kind of record that `line` holds.
pub fn record_kind(line: &str) -> (kind: RecordKind)
    ensures
        kind == spec_record_kind(line.spec_bytes()),
{
    let bytes = line.as_bytes();
    if bytes.len() >= 2 && bytes[1] == 0x20 {
        if bytes[0] == 0x76 {
            return RecordKind::Vertex;
        }
        if bytes[0] == 0x66 {
            return RecordKind::Face;
        }
    }
    RecordKind::Other
}

/// Whether `b` is ASCII white space: space, tab, line feed, form feed or
/// carriage return.
pub open spec fn is_space(b: u8) -> bool {
    b == 0x20 || b == 0x09 || b == 0x0a || b == 0x0c || b == 0x0d
}

/// Whether `b` is an ASCII digit.
pub open spec fn is_digit(b: u8) -> bool {
    0x30 <= b <= 0x39
}

/// The first position from `from` on that holds no white space, or the
/// length of `s`.
pub open spec fn skip_spaces(s: Seq<u8>, from: int) -> int
    decreases s.len() - from,
{
    if 0 <= from < s.len() && is_space(s[from]) {
        skip_spaces(s, from + 1)
    } else {
        from
    }
}

/// The first position from `from` on that holds white space, or the length
/// of `s`.
pub open spec fn token_end(s: Seq<u8>, from: int) -> int
    decreases s.len() - from,
{
    if 0 <= from < s.len() && !is_space(s[from]) {
        token_end(s, from + 1)
    } else {
        from
    }
}

/// The first position from `from` on and before `end` that holds a `/`, or
/// `end`.
pub open spec fn field_end(s: Seq<u8>, from: int, end: int) -> int
    decreases end - from,
{
    if 0 <= from < end <= s.len() && s[from] != 0x2f {
        field_end(s, from + 1, end)
    } else {
        from
    }
}

/// Whether `s` holds digits only.
pub open spec fn all_digits(s: Seq<u8>) -> bool {
    forall|i: int| 0 <= i < s.len() ==> is_digit(#[trigger] s[i])
}

/// The number that the digits `s` spell in base ten.
pub open spec fn decimal_value(s: Seq<u8>) -> nat
    decreases s.len(),
{
    if s.len() == 0 {
        0
    } else {
        decimal_value(s.drop_last()) * 10 + (s.last() - 0x30) as nat
    }
}

/// The number that `field` spells: one digit or more, after a `+` or
/// without. Anything else spells no number.
pub open spec fn parse_number(field: Seq<u8>) -> Option<nat> {
    let digits = if field.len() > 0 && field[0] == 0x2b {
        field.skip(1)
    } else {
        field
    };
    if digits.len() > 0 && all_digits(digits) {
        Some(decimal_value(digits))
    } else {
        None
    }
}

/// The vertex index that `field` refers to: its number less one, if it
/// spells a number from 1 to `usize::MAX`.
pub open spec fn parse_index(field: Seq<u8>) -> Option<usize> {
    match parse_number(field) {
        Some(v) => if 1 <= v <= usize::MAX {
            Some((v - 1) as usize)
        } else {
            None
        },
        None => None,
    }
}

/// The vertex indices of the first `limit` references of `s` from `from`
/// on, or `None` if one of them refers to no vertex.
pub open spec fn parse_fields(s: Seq<u8>, from: int, limit: nat) -> Option<Seq<usize>>
    decreases limit,
{
    let start = skip_spaces(s, from);
    if limit == 0 || start >= s.len() {
        Some(Seq::empty())
    } else {
        let end = token_end(s, start);
        match parse_index(s.subrange(start, field_end(s, start, end))) {
            None => None,
            Some(index) => match parse_fields(s, end, (limit - 1) as nat) {
                None => None,
                Some(rest) => Some(seq![index] + rest),
            },
        }
    }
}

/// The vertex indices of a face line: those of its first three references.
pub open spec fn parse_face(s: Seq<u8>) -> Option<Seq<usize>> {
    parse_fields(s, 0, 3)
}

/// The number that the first digits of a number spell is no larger than
/// the number itself.
proof fn lemma_decimal_value_grows(s: Seq<u8>, i: int)
    requires
        all_digits(s),
        0 <= i <= s.len(),
    ensures
        decimal_value(s.take(i)) <= decimal_value(s),
    decreases s.len() - i,
{
    if i < s.len() {
        lemma_decimal_value_grows(s, i + 1);
        assert(s.take(i + 1).drop_last() =~= s.take(i));
        assert(is_digit(s[i]));
    } else {
        assert(s.take(i) =~= s);
    }
}

/// The number that the bytes of `s` from `from` to `to` spell, if they are
/// digits and the number fits.
fn parse_digits(s: &[u8], from: usize, to: usize) -> (value: Option<usize>)
    requires
        from <= to <= s@.len(),
    ensures
        value == if from < to && all_digits(s@.subrange(from as int, to as int)) && decimal_value(
            s@.subrange(from as int, to as int),
        ) <= usize::MAX {
            Some(decimal_value(s@.subrange(from as int, to as int)) as usize)
        } else {
            None
        },
{
    if from == to {
        return None;
    }
    let ghost digits = s@.subrange(from as int, to as int);
    let mut value: usize = 0;
    let mut i: usize = from;
    while i < to
        invariant
            from <= i <= to <= s@.len(),
            digits == s@.subrange(from as int, to as int),
            all_digits(digits.take(i - from)),
            value == decimal_value(digits.take(i - from)),
        decreases to - i,
    {
        let b = s[i];
        proof {
            assert(digits[i - from] == b);
            assert(digits.take(i - from + 1).drop_last() =~= digits.take(i - from));
        }
        if b < 0x30 || b > 0x39 {
            return None;
        }
        proof {
            assert forall|j: int| 0 <= j < i - from + 1 implies is_digit(
                #[trigger] digits.take(i - from + 1)[j],
            ) by {
                if j < i - from {
                    assert(digits.take(i - from)[j] == digits[j]);
                }
            }
            if all_digits(digits) {
                lemma_decimal_value_grows(digits, i - from + 1);
            }
        }
        let digit = (b - 0x30) as usize;
        match value.checked_mul(10) {
            None => {
                return None;
            },
            Some(tens) => match tens.checked_add(digit) {
                None => {
                    return None;
                },
                Some(sum) => {
                    value = sum;
                },
            },
        }
        i += 1;
    }
    assert(digits.take(to - from) =~= digits);
    Some(value)
}

/// The vertex indices of a face line: for each of the first three
/// references, white space apart, the number before its first `/`, less
/// one. A reference without such a number, or with the number zero, fails
/// the line.
pub fn get_face_indicies(line: String) -> (indices: Result<Vec<usize>, String>)
    ensures
        match parse_face(encode_utf8(line@)) {
            Some(faces) => indices is Ok && indices->Ok_0@ == faces,
            None => indices is Err && indices->Err_0@ == "Failed to parse face vertex number"@,
        },
{
    let bytes = line.as_str().as_bytes();
    let ghost s = bytes@;
    let n = bytes.len();
    let mut indices: Vec<usize> = Vec::new();
    let mut position: usize = 0;
    let mut taken: usize = 0;
    while taken < 3
        invariant
            s == bytes@,
            s == encode_utf8(line@),
            n == s.len(),
            position <= n,
            taken <= 3,
            indices@.len() == taken,
            match parse_fields(s, position as int, (3 - taken) as nat) {
                Some(rest) => parse_face(s) == Some(indices@ + rest),
                None => parse_face(s) is None,
            },
        ensures
            parse_face(s) == Some(indices@),
        decreases 3 - taken,
    {
        let ghost from = position;
        while position < n && is_space_byte(bytes[position])
            invariant
                s == bytes@,
                n == s.len(),
                from <= position <= n,
                skip_spaces(s, from as int) == skip_spaces(s, position as int),
            decreases n - position,
        {
            position += 1;
        }
        if position >= n {
            break;
        }
        let start = position;
        while position < n && !is_space_byte(bytes[position])
            invariant
                s == bytes@,
                n == s.len(),
                start <= position <= n,
                token_end(s, start as int) == token_end(s, position as int),
            decreases n - position,
        {
            position += 1;
        }
        let end = position;
        let mut stop = start;
        while stop < end && bytes[stop] != 0x2f
            invariant
                s == bytes@,
                n == s.len(),
                start <= stop <= end <= n,
                field_end(s, start as int, end as int) == field_end(s, stop as int, end as int),
            decreases end - stop,
        {
            stop += 1;
        }
        let ghost field = s.subrange(start as int, stop as int);
        let digits_from = if start < stop && bytes[start] == 0x2b {
            start + 1
        } else {
            start
        };
        proof {
            if start < stop && s[start as int] == 0x2b {
                assert(field.skip(1) =~= s.subrange(digits_from as int, stop as int));
            }
        }
        let number = parse_digits(bytes, digits_from, stop);
        proof {
            let rest = parse_fields(s, end as int, (3 - taken - 1) as nat);
            assert(skip_spaces(s, from as int) == start);
            assert(token_end(s, start as int) == end);
            assert(field_end(s, start as int, end as int) == stop);
            assert(parse_index(field) == match number {
                Some(v) => if v >= 1 {
                    Some((v - 1) as usize)
                } else {
                    None
                },
                None => None,
            });
            if rest is Some && parse_index(field) is Some {
                assert(indices@ + (seq![parse_index(field)->0] + rest->0) =~= indices@.push(
                    parse_index(field)->0,
                ) + rest->0);
            }
        }
        let index = match number {
            Some(v) => if v >= 1 {
                v - 1
            } else {
                return Err("Failed to parse face vertex number".to_string());
            },
            None => {
                return Err("Failed to parse face vertex number".to_string());
            },
        };
        indices.push(index);
        taken += 1;
    }
    proof {
        let rest = parse_fields(s, position as int, (3 - taken) as nat);
        assert(rest == Some(Seq::<usize>::empty()));
        assert(indices@ + Seq::<usize>::empty() =~= indices@);
    }
    Ok(indices)
}

/// Whether `b` is ASCII white space.
fn is_space_byte(b: u8) -> (space: bool)
    ensures
        space == is_space(b),
{
    b == 0x20 || b == 0x09 || b == 0x0a || b == 0x0c || b == 0x0d
}

} // verus!
