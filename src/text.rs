//! The text form of a sparse vector: `{term_id:tf, term_id:tf, ...}`, with
//! spaces allowed around the braces and between items, for example
//! `{1:2, 3:1, 5:3}`. The document length is the sum of the frequencies.
use crate::vector::{lemma_sum_prefix_le, seq_sum, Bm25Vector};
use vstd::prelude::*;

verus! {

/// Why a text vector was rejected.
#[derive(Debug, PartialEq, Eq, Structural)]
pub enum ParseVectorError {
    EmptyString,
    BadCharacter { position: usize },
    BadParentheses { character: char },
    BadColon { position: usize },
    MissingColon { position: usize },
    TooLongNumber { position: usize },
    TooShortNumber { position: usize },
    TooManyDocuments,
    BadParsing { position: usize },
    IndexNotIncreasing { position: usize },
}

impl ParseVectorError {
    /// A sentence that says what went wrong.
    pub fn message(&self) -> String {
        match self {
            ParseVectorError::EmptyString => String::from_str("The input string is empty."),
            ParseVectorError::BadCharacter { .. } => String::from_str("Bad character."),
            ParseVectorError::BadParentheses { .. } => String::from_str("Bad parentheses character."),
            ParseVectorError::BadColon { .. } => String::from_str("Bad colon."),
            ParseVectorError::MissingColon { .. } => String::from_str("Missing colon."),
            ParseVectorError::TooLongNumber { .. } => String::from_str("Too long number."),
            ParseVectorError::TooShortNumber { .. } => String::from_str("Too short number."),
            ParseVectorError::TooManyDocuments => String::from_str(
                "The sum of term frequencies is exceeding u32::MAX.",
            ),
            ParseVectorError::BadParsing { .. } => String::from_str("Bad parsing."),
            ParseVectorError::IndexNotIncreasing { .. } => String::from_str(
                "Indexes are not increasing.",
            ),
        }
    }
}

/// The longest number token accepted.
pub const MAX_TOKEN_LEN: usize = 48;

pub open spec fn is_token_char(c: u8) -> bool {
    (48 <= c <= 57) || (97 <= c <= 122) || (65 <= c <= 90) || c == 46 || c == 43 || c == 45
}

/// The number that the decimal digits `s` spell.
pub open spec fn digits_value(s: Seq<u8>) -> nat
    decreases s.len(),
{
    if s.len() == 0 {
        0
    } else {
        digits_value(s.drop_last()) * 10 + (s.last() - 48) as nat
    }
}

pub open spec fn is_digit(c: u8) -> bool {
    48 <= c && c <= 57
}

/// Whether every byte of `s` is a decimal digit.
pub open spec fn all_digits(s: Seq<u8>) -> bool {
    forall|i: int| 0 <= i < s.len() ==> is_digit(#[trigger] s[i])
}

/// An unsigned 32-bit number in decimal, with an optional leading `+`.
pub open spec fn parse_u32_spec(s: Seq<u8>) -> Option<u32> {
    let d = if s.len() > 0 && s[0] == 43 {
        s.drop_first()
    } else {
        s
    };
    if d.len() > 0 && all_digits(d) && digits_value(d) <= u32::MAX {
        Some(digits_value(d) as u32)
    } else {
        None
    }
}

/// The position of the opening brace: the first byte before the last that
/// is not a space, from `i` on.
pub open spec fn scan_left(input: Seq<u8>, i: int) -> Result<int, ParseVectorError>
    decreases input.len() - i,
{
    if i < 0 || i >= input.len() - 1 {
        Err(ParseVectorError::BadParentheses { character: '{' })
    } else if input[i] == 123 {
        Ok(i)
    } else if input[i] == 32 {
        scan_left(input, i + 1)
    } else {
        Err(ParseVectorError::BadCharacter { position: i as usize })
    }
}

/// The position of the closing brace: the last byte after the first that is
/// not a space, from `i` down.
pub open spec fn scan_right(input: Seq<u8>, i: int) -> Result<int, ParseVectorError>
    decreases i,
{
    if i < 1 || i >= input.len() {
        Err(ParseVectorError::BadParentheses { character: '}' })
    } else if input[i] == 125 {
        Ok(i)
    } else if input[i] == 32 {
        scan_right(input, i - 1)
    } else {
        Err(ParseVectorError::BadCharacter { position: i as usize })
    }
}

/// What has been read between the braces: the indexes, the values, whether
/// an index comes next, and the number being read.
pub struct ParseState {
    pub indexes: Seq<u32>,
    pub values: Seq<u32>,
    pub is_index: bool,
    pub token: Seq<u8>,
}

/// Reads byte `c` at `position`.
pub open spec fn parse_step(st: ParseState, c: u8, position: usize) -> Result<
    ParseState,
    ParseVectorError,
> {
    if is_token_char(c) {
        if st.token.len() >= MAX_TOKEN_LEN {
            Err(ParseVectorError::TooLongNumber { position })
        } else {
            Ok(ParseState { token: st.token.push(c), ..st })
        }
    } else if c == 58 {
        if !st.is_index {
            Err(ParseVectorError::BadColon { position })
        } else if st.token.len() == 0 {
            Err(ParseVectorError::TooShortNumber { position })
        } else {
            match parse_u32_spec(st.token) {
                None => Err(ParseVectorError::BadParsing { position }),
                Some(n) => if st.indexes.len() > 0 && n <= st.indexes.last() {
                    Err(ParseVectorError::IndexNotIncreasing { position })
                } else {
                    Ok(
                        ParseState {
                            indexes: st.indexes.push(n),
                            values: st.values,
                            is_index: false,
                            token: seq![],
                        },
                    )
                },
            }
        }
    } else if c == 44 {
        if st.is_index {
            Err(ParseVectorError::MissingColon { position })
        } else if st.token.len() == 0 {
            Err(ParseVectorError::TooShortNumber { position })
        } else {
            match parse_u32_spec(st.token) {
                Some(n) => if n > 0 {
                    Ok(
                        ParseState {
                            indexes: st.indexes,
                            values: st.values.push(n),
                            is_index: true,
                            token: seq![],
                        },
                    )
                } else {
                    Err(ParseVectorError::BadParsing { position })
                },
                None => Err(ParseVectorError::BadParsing { position }),
            }
        }
    } else if c == 32 {
        Ok(st)
    } else {
        Err(ParseVectorError::BadCharacter { position })
    }
}

pub open spec fn initial_state() -> ParseState {
    ParseState { indexes: seq![], values: seq![], is_index: true, token: seq![] }
}

/// The state after reading the bytes from `left + 1` up to `end`.
pub open spec fn parse_run(input: Seq<u8>, left: int, end: int) -> Result<
    ParseState,
    ParseVectorError,
>
    decreases end - left,
{
    if end <= left + 1 {
        Ok(initial_state())
    } else {
        match parse_run(input, left, end - 1) {
            Err(e) => Err(e),
            Ok(st) => parse_step(st, input[end - 1], (end - 1) as usize),
        }
    }
}

/// Reads the number left at the closing brace and checks the counts.
pub open spec fn parse_finish(st: ParseState, right: usize) -> Result<
    (Seq<u32>, Seq<u32>),
    ParseVectorError,
> {
    let values = if st.token.len() == 0 {
        Ok(st.values)
    } else if st.is_index {
        Err(ParseVectorError::MissingColon { position: right })
    } else {
        match parse_u32_spec(st.token) {
            Some(n) => if n > 0 {
                Ok(st.values.push(n))
            } else {
                Err(ParseVectorError::BadParsing { position: right })
            },
            None => Err(ParseVectorError::BadParsing { position: right }),
        }
    };
    match values {
        Err(e) => Err(e),
        Ok(values) => if st.indexes.len() != values.len() {
            Err(ParseVectorError::TooShortNumber { position: right })
        } else if seq_sum(values) > u32::MAX {
            Err(ParseVectorError::TooManyDocuments)
        } else {
            Ok((st.indexes, values))
        },
    }
}

/// What reading `input` gives: its indexes and values, or the first error.
pub open spec fn parse_spec(input: Seq<u8>) -> Result<(Seq<u32>, Seq<u32>), ParseVectorError> {
    if input.len() == 0 {
        Err(ParseVectorError::EmptyString)
    } else {
        match scan_left(input, 0) {
            Err(e) => Err(e),
            Ok(left) => match scan_right(input, input.len() - 1) {
                Err(e) => Err(e),
                Ok(right) => match parse_run(input, left, right) {
                    Err(e) => Err(e),
                    Ok(st) => parse_finish(st, right as usize),
                },
            },
        }
    }
}


proof fn lemma_digits_prefix_le(s: Seq<u8>, k: int)
    requires
        0 <= k <= s.len(),
        all_digits(s),
    ensures
        digits_value(s.subrange(0, k)) <= digits_value(s),
    decreases s.len(),
{
    if k < s.len() {
        let t = s.drop_last();
        assert(t =~= s.subrange(0, s.len() - 1));
        lemma_digits_prefix_le(t, k);
        assert(t.subrange(0, k) =~= s.subrange(0, k));
    } else {
        assert(s.subrange(0, k) =~= s);
    }
}

/// Reads an unsigned 32-bit decimal number, with an optional leading `+`.
fn parse_u32(s: &[u8]) -> (r: Option<u32>)
    ensures
        r == parse_u32_spec(s@),
{
    let start: usize = if s.len() > 0 && s[0] == 43 {
        1
    } else {
        0
    };
    let ghost d = if s@.len() > 0 && s@[0] == 43 {
        s@.drop_first()
    } else {
        s@
    };
    assert(d =~= s@.subrange(start as int, s@.len() as int));
    if start == s.len() {
        return None;
    }
    let mut v: u64 = 0;
    let mut i: usize = start;
    while i < s.len()
        invariant
            start <= i <= s@.len(),
            d == s@.subrange(start as int, s@.len() as int),
            d == (if s@.len() > 0 && s@[0] == 43 {
                s@.drop_first()
            } else {
                s@
            }),
            v == digits_value(s@.subrange(start as int, i as int)),
            v <= u32::MAX,
            forall|j: int| start <= j < i ==> is_digit(#[trigger] s@[j]),
        decreases s@.len() - i,
    {
        let c = s[i];
        assert(s@.subrange(start as int, i + 1).drop_last() =~= s@.subrange(start as int, i as int));
        if c < 48 || c > 57 {
            proof {
                assert(d[i - start] == c);
                assert(!all_digits(d));

            }
            return None;
        }
        v = v * 10 + (c - 48) as u64;
        if v > 0xffff_ffff {
            proof {
                if all_digits(d) {
                    lemma_digits_prefix_le(d, i + 1 - start);
                    assert(d.subrange(0, i + 1 - start) =~= s@.subrange(start as int, i + 1));
                    assert(digits_value(d) > u32::MAX);
                }
            }
            return None;
        }
        i += 1;
    }
    assert(s@.subrange(start as int, i as int) =~= d);
    assert forall|j: int| 0 <= j < d.len() implies is_digit(#[trigger] d[j]) by {
        assert(d[j] == s@[start + j]);
    }
    Some(v as u32)
}

/// Parses the text form of a vector.
pub fn parse_bm25vector(input: &[u8]) -> (r: Result<Bm25Vector, ParseVectorError>)
    ensures
        match parse_spec(input@) {
            Ok((indexes, values)) => r matches Ok(v) && v.wf() && v.spec_indexes() == indexes
                && v.spec_values() == values && v.spec_doc_len() == seq_sum(values),
            Err(e) => r == Err::<Bm25Vector, ParseVectorError>(e),
        },
{
    if input.len() == 0 {
        return Err(ParseVectorError::EmptyString);
    }
    let n = input.len();
    let mut left: usize = 0;
    while left < n - 1 && input[left] != 123
        invariant
            n == input@.len(),
            n > 0,
            left <= n - 1,
            scan_left(input@, 0) == scan_left(input@, left as int),
        decreases n - left,
    {
        if input[left] != 32 {
            return Err(ParseVectorError::BadCharacter { position: left });
        }
        left += 1;
    }
    if left == n - 1 {
        return Err(ParseVectorError::BadParentheses { character: '{' });
    }
    assert(scan_left(input@, 0) == Ok::<int, ParseVectorError>(left as int));
    let mut right: usize = n - 1;
    while right >= 1 && input[right] != 125
        invariant
            n == input@.len(),
            right <= n - 1,
            left < n - 1,
            scan_left(input@, 0) == Ok::<int, ParseVectorError>(left as int),
            scan_right(input@, n - 1) == scan_right(input@, right as int),
        decreases right,
    {
        if input[right] != 32 {
            return Err(ParseVectorError::BadCharacter { position: right });
        }
        right -= 1;
    }
    if right == 0 {
        return Err(ParseVectorError::BadParentheses { character: '}' });
    }
    assert(scan_right(input@, n - 1) == Ok::<int, ParseVectorError>(right as int));
    proof {
        if right <= left {
            assert(input@[left as int] == 123);
            lemma_scan_right_passes(input@, n - 1, left as int);
        }
    }
    let mut indexes: Vec<u32> = Vec::new();
    let mut values: Vec<u32> = Vec::new();
    let mut is_index = true;
    let mut token: Vec<u8> = Vec::new();
    let mut position: usize = left + 1;
    while position < right
        invariant
            left < position <= right < n,
            n == input@.len(),
            scan_left(input@, 0) == Ok::<int, ParseVectorError>(left as int),
            scan_right(input@, n - 1) == Ok::<int, ParseVectorError>(right as int),
            parse_run(input@, left as int, position as int) == Ok::<ParseState, ParseVectorError>(
                ParseState { indexes: indexes@, values: values@, is_index, token: token@ },
            ),
            forall|i: int, j: int| 0 <= i < j < indexes@.len() ==> indexes@[i] < indexes@[j],
            forall|i: int| 0 <= i < values@.len() ==> values@[i] >= 1,
        decreases right - position,
    {
        let c = input[position];
        let ghost st = ParseState { indexes: indexes@, values: values@, is_index, token: token@ };
        proof {
            assert(parse_run(input@, left as int, position + 1) == parse_step(st, c, position));
            if parse_step(st, c, position) is Err {
                lemma_run_err(input@, left as int, position + 1, right as int);
            }
        }
        if (48 <= c && c <= 57) || (97 <= c && c <= 122) || (65 <= c && c <= 90) || c == 46 || c
            == 43 || c == 45 {
            if token.len() >= MAX_TOKEN_LEN {
                return Err(ParseVectorError::TooLongNumber { position });
            }
            token.push(c);
        } else if c == 58 {
            if !is_index {
                return Err(ParseVectorError::BadColon { position });
            }
            if token.len() == 0 {
                return Err(ParseVectorError::TooShortNumber { position });
            }
            let num = match parse_u32(token.as_slice()) {
                Some(num) => num,
                None => {
                    return Err(ParseVectorError::BadParsing { position });
                },
            };
            if indexes.len() > 0 && num <= indexes[indexes.len() - 1] {
                return Err(ParseVectorError::IndexNotIncreasing { position });
            }
            indexes.push(num);
            token = Vec::new();
            is_index = false;
        } else if c == 44 {
            if is_index {
                return Err(ParseVectorError::MissingColon { position });
            }
            if token.len() == 0 {
                return Err(ParseVectorError::TooShortNumber { position });
            }
            let num = match parse_u32(token.as_slice()) {
                Some(num) => num,
                None => {
                    return Err(ParseVectorError::BadParsing { position });
                },
            };
            if num == 0 {
                return Err(ParseVectorError::BadParsing { position });
            }
            values.push(num);
            token = Vec::new();
            is_index = true;
        } else if c != 32 {
            return Err(ParseVectorError::BadCharacter { position });
        }
        proof {
            assert(token@ =~= parse_step(st, c, position).unwrap().token || parse_step(
                st,
                c,
                position,
            ) is Err);
        }
        position += 1;
        proof {
            assert(ParseState { indexes: indexes@, values: values@, is_index, token: token@ }
                == parse_step(st, c, (position - 1) as usize).unwrap());
        }
    }
    let ghost st = ParseState { indexes: indexes@, values: values@, is_index, token: token@ };
    if token.len() > 0 {
        if is_index {
            return Err(ParseVectorError::MissingColon { position: right });
        }
        let num = match parse_u32(token.as_slice()) {
            Some(num) => num,
            None => {
                return Err(ParseVectorError::BadParsing { position: right });
            },
        };
        if num == 0 {
            return Err(ParseVectorError::BadParsing { position: right });
        }
        values.push(num);
    }
    if indexes.len() != values.len() {
        return Err(ParseVectorError::TooShortNumber { position: right });
    }
    proof {
        assert(parse_spec(input@) == (if seq_sum(values@) > u32::MAX {
            Err(ParseVectorError::TooManyDocuments)
        } else {
            Ok((indexes@, values@))
        }));
    }
    let mut sum: u64 = 0;
    let mut i: usize = 0;
    while i < values.len()
        invariant
            i <= values@.len(),
            parse_spec(input@) == (if seq_sum(values@) > u32::MAX {
                Err(ParseVectorError::TooManyDocuments)
            } else {
                Ok((indexes@, values@))
            }),
            sum == seq_sum(values@.subrange(0, i as int)),
            sum <= u32::MAX,
        decreases values@.len() - i,
    {
        assert(values@.subrange(0, i + 1).drop_last() =~= values@.subrange(0, i as int));
        sum = sum + values[i] as u64;
        if sum > 0xffff_ffff {
            proof {
                lemma_sum_prefix_le(values@, i + 1);
            }
            return Err(ParseVectorError::TooManyDocuments);
        }
        i += 1;
    }
    assert(values@.subrange(0, i as int) =~= values@);
    let doc_len = sum as u32;
    let ghost ix = indexes@;
    let ghost vs = values@;
    match Bm25Vector::new(doc_len, indexes, values) {
        Some(v) => Ok(v),
        None => {
            // not reached: the parts were checked above
            assert(Bm25Vector::valid_parts(doc_len, ix, vs));
            Err(ParseVectorError::TooManyDocuments)
        },
    }
}

/// Once reading fails, it stays failed with the same error.
proof fn lemma_run_err(input: Seq<u8>, left: int, a: int, b: int)
    requires
        left + 1 <= a <= b,
        parse_run(input, left, a) is Err,
    ensures
        parse_run(input, left, b) == parse_run(input, left, a),
    decreases b - a,
{
    if b > a {
        lemma_run_err(input, left, a, b - 1);
    }
}

/// The closing brace is found after the opening one.
proof fn lemma_scan_right_passes(input: Seq<u8>, i: int, left: int)
    requires
        0 <= left <= i < input.len(),
        input[left] == 123,
        left >= 1 || input.len() >= 1,
    ensures
        scan_right(input, i) is Ok ==> scan_right(input, i)->Ok_0 > left,
    decreases i,
{
    if i >= 1 && input[i] != 125 && input[i] == 32 && i - 1 >= left {
        lemma_scan_right_passes(input, i - 1, left);
    }
}

}
