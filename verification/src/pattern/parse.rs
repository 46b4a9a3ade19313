//! Parsing the textual pattern surface: literals, `-`, and `[...]` groups
//! with letters, `x-y` ranges, a leading `-c` and a trailing `c-`.

use vstd::prelude::*;
use vstd::string::StringSliceAdditionalSpecFns;

use crate::pattern::Pattern;

verus! {

/// Why a pattern string was rejected.
#[derive(Clone, Copy, Debug, PartialEq, Eq, Structural)]
pub enum ErrorKind {
    /// The input (or a second `[`) ended a group before its `]`.
    UnclosedGroup,
    /// A `]` appeared outside any group.
    ReclosedGroup,
    /// A `-` inside a group was followed by another `-`.
    UnclosedRange,
    /// Any other character.
    Unexpected,
}

/// A rejected pattern string: the input, the byte column and the reason.
#[derive(Clone, Debug)]
pub struct ParseError {
    /// The rejected input.
    pub input: Vec<u8>,
    /// The byte index the parser stopped at.
    pub idx: usize,
    /// The reason it stopped.
    pub kind: ErrorKind,
}

/// The mask permitting exactly the symbols `s..=e` (none when `s > e`).
pub open spec fn spec_range_mask(s: u8, e: u8) -> u32
    recommends
        e < 26,
{
    if s <= e && e < 26 {
        ((1u64 << ((e + 1) as u64)) - (1u64 << (s as u64))) as u32
    } else {
        0
    }
}

/// Whether the byte is a lowercase letter.
pub open spec fn is_lower(b: u8) -> bool {
    97 <= b <= 122
}

/// What parsing a group body from byte `i` yields: the finished mask and the
/// position after the closing `]`, or the offending position and reason.
/// `mask`, `start` and `in_range` carry the bits so far, the last letter seen
/// and whether a `-` is pending.
pub open spec fn parse_group_spec(
    s: Seq<u8>,
    i: int,
    mask: u32,
    start: Option<u8>,
    in_range: bool,
) -> Result<(u32, int), (int, ErrorKind)>
    decreases s.len() - i,
{
    if i < 0 || i >= s.len() {
        Err((s.len() as int, ErrorKind::UnclosedGroup))
    } else {
        let b = s[i];
        if is_lower(b) {
            let v = (b - 97) as u8;
            if in_range {
                let s0 = match start {
                    Some(x) => x,
                    None => 0,
                };
                parse_group_spec(s, i + 1, mask | spec_range_mask(s0, v), Some(v), false)
            } else {
                match start {
                    Some(x) => parse_group_spec(
                        s,
                        i + 1,
                        mask | spec_range_mask(x, x),
                        Some(v),
                        false,
                    ),
                    None => parse_group_spec(s, i + 1, mask, Some(v), false),
                }
            }
        } else if b == 45 {
            // '-'
            if in_range {
                Err((i, ErrorKind::UnclosedRange))
            } else {
                parse_group_spec(s, i + 1, mask, start, true)
            }
        } else if b == 93 {
            // ']'
            if in_range {
                let s0 = match start {
                    Some(x) => x,
                    None => 0,
                };
                Ok((mask | spec_range_mask(s0, 25), i + 1))
            } else {
                match start {
                    Some(x) => Ok((mask | spec_range_mask(x, x), i + 1)),
                    None => Ok((mask, i + 1)),
                }
            }
        } else if b == 91 {
            // '['
            Err((i, ErrorKind::UnclosedGroup))
        } else {
            Err((i, ErrorKind::Unexpected))
        }
    }
}

/// What parsing a whole pattern from byte `i` yields, with the masks read so
/// far in `acc`.
pub open spec fn parse_spec(s: Seq<u8>, i: int, acc: Seq<u32>) -> Result<
    Seq<u32>,
    (int, ErrorKind),
>
    decreases s.len() - i,
{
    if i < 0 {
        Err((0, ErrorKind::Unexpected))
    } else if i >= s.len() {
        Ok(acc)
    } else {
        let b = s[i];
        if is_lower(b) {
            let v = (b - 97) as u8;
            parse_spec(s, i + 1, acc.push(spec_range_mask(v, v)))
        } else if b == 45 {
            // '-'
            parse_spec(s, i + 1, acc.push(spec_range_mask(0, 25)))
        } else if b == 91 {
            // '['
            match parse_group_spec(s, i + 1, 0, None::<u8>, false) {
                Ok((mask, j)) => if j <= i || j > s.len() {
                    Err((i, ErrorKind::Unexpected))
                } else {
                    parse_spec(s, j, acc.push(mask))
                },
                Err(e) => Err(e),
            }
        } else if b == 93 {
            // ']'
            Err((i, ErrorKind::ReclosedGroup))
        } else {
            Err((i, ErrorKind::Unexpected))
        }
    }
}

/// The mask permitting exactly the symbols `s..=e`; reversed bounds permit
/// nothing.
pub fn range_mask(s: u8, e: u8) -> (r: u32)
    requires
        e < 26,
    ensures
        r == spec_range_mask(s, e),
{
    if s <= e {
        let hi: u64 = 1u64 << ((e + 1) as u64);
        let lo: u64 = 1u64 << (s as u64);
        proof {
            assert(1u64 << ((e + 1) as u64) >= 1u64 << (s as u64) && 1u64 << ((e + 1) as u64)
                <= 0x1_0000_0000u64) by (bit_vector)
                requires
                    s <= e && e < 26,
            ;
        }
        proof {
            assert(1u64 << (s as u64) >= 1u64) by (bit_vector)
                requires
                    s < 26,
            ;
        }
        let d: u64 = hi - lo;
        d as u32
    } else {
        0
    }
}

/// An owned copy of the rejected input, kept on the error.
fn copy_bytes(s: &[u8]) -> (r: Vec<u8>)
    ensures
        r@ == s@,
{
    let mut r: Vec<u8> = Vec::new();
    let mut k: usize = 0;
    while k < s.len()
        invariant
            k <= s@.len(),
            r@ == s@.take(k as int),
        decreases s@.len() - k,
    {
        r.push(s[k]);
        proof {
            assert(s@.take(k + 1) =~= s@.take(k as int).push(s@[k as int]));
        }
        k += 1;
    }
    proof {
        assert(s@.take(s@.len() as int) =~= s@);
    }
    r
}

impl Pattern {
    /// Parses a group body (after its `[`), returning the mask and the index
    /// just past the `]`.
    fn parse_group(s: &[u8], from: usize) -> (r: Result<(u32, usize), ParseError>)
        requires
            from <= s@.len(),
        ensures
            match r {
                Ok((mask, j)) => parse_group_spec(s@, from as int, 0, None::<u8>, false) == Ok::<
                    _,
                    (int, ErrorKind),
                >((mask, j as int)) && from < j <= s@.len(),
                Err(e) => parse_group_spec(s@, from as int, 0, None::<u8>, false) == Err::<
                    (u32, int),
                    _,
                >((e.idx as int, e.kind)) && e.input@ == s@,
            },
    {
        let mut i: usize = from;
        let mut mask: u32 = 0;
        let mut start: Option<u8> = None;
        let mut in_range: bool = false;
        loop
            invariant
                from <= i <= s@.len(),
                match start {
                    Some(x) => x < 26,
                    None => true,
                },
                parse_group_spec(s@, from as int, 0, None::<u8>, false) == parse_group_spec(
                    s@,
                    i as int,
                    mask,
                    start,
                    in_range,
                ),
            decreases s@.len() - i,
        {
            if i >= s.len() {
                return Err(
                    ParseError {
                        input: copy_bytes(s),
                        idx: s.len(),
                        kind: ErrorKind::UnclosedGroup,
                    },
                );
            }
            let b = s[i];
            if 97 <= b && b <= 122 {
                let v = b - 97;
                if in_range {
                    let s0 = match start {
                        Some(x) => x,
                        None => 0,
                    };
                    mask = mask | range_mask(s0, v);
                    start = Some(v);
                    in_range = false;
                } else {
                    match start {
                        Some(x) => {
                            mask = mask | range_mask(x, x);
                        },
                        None => {},
                    }
                    start = Some(v);
                }
                i += 1;
            } else if b == 45 {
                if in_range {
                    return Err(
                        ParseError { input: copy_bytes(s), idx: i, kind: ErrorKind::UnclosedRange },
                    );
                }
                in_range = true;
                i += 1;
            } else if b == 93 {
                if in_range {
                    let s0 = match start {
                        Some(x) => x,
                        None => 0,
                    };
                    return Ok((mask | range_mask(s0, 25), i + 1));
                }
                match start {
                    Some(x) => {
                        return Ok((mask | range_mask(x, x), i + 1));
                    },
                    None => {
                        return Ok((mask, i + 1));
                    },
                }
            } else if b == 91 {
                return Err(
                    ParseError { input: copy_bytes(s), idx: i, kind: ErrorKind::UnclosedGroup },
                );
            } else {
                return Err(
                    ParseError { input: copy_bytes(s), idx: i, kind: ErrorKind::Unexpected },
                );
            }
        }
    }

    /// Parses a pattern string given as bytes.  The result is exactly what
    /// the grammar assigns to the input, and each rejection carries the
    /// offending byte column and the reason.
    pub fn parse(s: &[u8]) -> (r: Result<Pattern, ParseError>)
        ensures
            match r {
                Ok(p) => parse_spec(s@, 0, Seq::<u32>::empty()) == Ok::<_, (int, ErrorKind)>(p@),
                Err(e) => parse_spec(s@, 0, Seq::<u32>::empty()) == Err::<Seq<u32>, _>(
                    (e.idx as int, e.kind),
                ) && e.input@ == s@,
            },
    {
        let mut i: usize = 0;
        let mut masks: Vec<u32> = Vec::new();
        loop
            invariant
                i <= s@.len(),
                parse_spec(s@, 0, Seq::<u32>::empty()) == parse_spec(s@, i as int, masks@),
            decreases s@.len() - i,
        {
            if i >= s.len() {
                return Ok(Pattern { masks });
            }
            let b = s[i];
            if 97 <= b && b <= 122 {
                let v = b - 97;
                masks.push(range_mask(v, v));
                i += 1;
            } else if b == 45 {
                masks.push(range_mask(0, 25));
                i += 1;
            } else if b == 91 {
                match Pattern::parse_group(s, i + 1) {
                    Ok((mask, j)) => {
                        masks.push(mask);
                        i = j;
                    },
                    Err(e) => {
                        return Err(e);
                    },
                }
            } else if b == 93 {
                return Err(
                    ParseError { input: copy_bytes(s), idx: i, kind: ErrorKind::ReclosedGroup },
                );
            } else {
                return Err(
                    ParseError { input: copy_bytes(s), idx: i, kind: ErrorKind::Unexpected },
                );
            }
        }
    }

    /// Parses a pattern string.
    pub fn parse_str(s: &str) -> (r: Result<Pattern, ParseError>)
        ensures
            match r {
                Ok(p) => parse_spec(s.spec_bytes(), 0, Seq::<u32>::empty()) == Ok::<
                    _,
                    (int, ErrorKind),
                >(p@),
                Err(e) => parse_spec(s.spec_bytes(), 0, Seq::<u32>::empty()) == Err::<Seq<u32>, _>(
                    (e.idx as int, e.kind),
                ) && e.input@ == s.spec_bytes(),
            },
    {
        Pattern::parse(s.as_bytes())
    }
}

impl core::str::FromStr for Pattern {
    type Err = ParseError;

    fn from_str(s: &str) -> Result<Pattern, ParseError> {
        Pattern::parse(s.as_bytes())
    }
}

} // verus!
