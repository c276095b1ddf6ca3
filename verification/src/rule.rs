use vstd::prelude::*;
use vstd::string::StrSliceExecFns;
use vstd::string::StringExecFns;

verus! {

/// A Life-like rule, stored as a 16-bit mask: bit `i` (0..=7) means a
/// live cell with `i` live neighbors survives, and bit `i + 8` means a
/// dead cell with `i` live neighbors is born.
///
/// The rule-string digit domain is 0..=7, so a rule can never express
/// survival or birth on exactly 8 neighbors, even though a cell of the
/// Moore neighborhood can have 8 live neighbors.
#[derive(Clone, Copy, PartialEq, Eq, Structural, Debug)]
pub struct Rule {
    pub bits: u16,
}

/// Why a rule string was rejected.
#[derive(Clone, Copy, PartialEq, Eq, Structural, Debug)]
pub enum ParseError {
    /// The string is not exactly two `/`-separated segments.
    BadFormat,
    /// A character of the survival segment is not a decimal digit.
    InvalidSurvivalChar,
    /// A survival digit of 8 or 9, outside the neighbor-count domain.
    SurvivalOutOfRange,
    /// A character of the birth segment is not a decimal digit.
    InvalidBirthChar,
    /// A birth digit of 8 or 9, outside the neighbor-count domain.
    BirthOutOfRange,
}

pub open spec fn is_digit(c: char) -> bool {
    48 <= c as u32 <= 57
}

pub open spec fn digit_val(c: char) -> int {
    c as u32 - 48
}

/// How many times `c` occurs in `s`.
pub open spec fn count_char(s: Seq<char>, c: char) -> int
    decreases s.len(),
{
    if s.len() == 0 {
        0
    } else {
        (if s[0] == c {
            1int
        } else {
            0
        }) + count_char(s.drop_first(), c)
    }
}

/// The first index of `c` in `s`, or `s.len()` if `c` does not occur.
pub open spec fn index_of_char(s: Seq<char>, c: char) -> int
    decreases s.len(),
{
    if s.len() == 0 {
        0
    } else if s[0] == c {
        0
    } else {
        1 + index_of_char(s.drop_first(), c)
    }
}

/// The first offense in a digit segment, scanned left to right:
/// `nondigit` for a character that is no decimal digit, `range` for a
/// digit of 8 or 9, `None` for a clean segment.
pub open spec fn seg_error(p: Seq<char>, nondigit: ParseError, range: ParseError) -> Option<
    ParseError,
>
    decreases p.len(),
{
    if p.len() == 0 {
        None
    } else if !is_digit(p[0]) {
        Some(nondigit)
    } else if digit_val(p[0]) >= 8 {
        Some(range)
    } else {
        seg_error(p.drop_first(), nondigit, range)
    }
}

/// The mask bits a clean digit segment contributes on top of `acc`:
/// one bit at `digit + off` per digit.
pub open spec fn seg_bits(p: Seq<char>, off: int, acc: u16) -> u16
    decreases p.len(),
{
    if p.len() == 0 {
        acc
    } else {
        seg_bits(p.drop_first(), off, acc | (1u16 << ((digit_val(p[0]) + off) as u16)))
    }
}

/// What parsing a rule string yields: `<survive digits>/<born digits>`
/// with every digit in 0..=7, duplicates idempotent, and the errors of
/// `ParseError` reported for the leftmost offense, survival segment
/// first.
pub open spec fn parse_spec(s: Seq<char>) -> Result<Rule, ParseError> {
    if count_char(s, '/') != 1 {
        Err(ParseError::BadFormat)
    } else {
        let k = index_of_char(s, '/');
        let sv = s.subrange(0, k);
        let bn = s.subrange(k + 1, s.len() as int);
        match seg_error(sv, ParseError::InvalidSurvivalChar, ParseError::SurvivalOutOfRange) {
            Some(e) => Err(e),
            None => match seg_error(bn, ParseError::InvalidBirthChar, ParseError::BirthOutOfRange) {
                Some(e) => Err(e),
                None => Ok(Rule { bits: seg_bits(bn, 8, seg_bits(sv, 0, 0)) }),
            },
        }
    }
}

/// The digit character for `d` in 0..=7.
pub open spec fn digit_char(d: int) -> char {
    if d == 0 {
        '0'
    } else if d == 1 {
        '1'
    } else if d == 2 {
        '2'
    } else if d == 3 {
        '3'
    } else if d == 4 {
        '4'
    } else if d == 5 {
        '5'
    } else if d == 6 {
        '6'
    } else {
        '7'
    }
}

/// The ascending digit characters of one half of the mask, starting at
/// digit `i0`: digit `i` appears exactly when bit `i + off` is set.
pub open spec fn half_chars(bits: u16, off: int, i0: int) -> Seq<char>
    decreases 8 - i0,
{
    if i0 < 0 || i0 >= 8 {
        Seq::empty()
    } else {
        let rest = half_chars(bits, off, i0 + 1);
        if (bits >> ((i0 + off) as u16)) & 1 == 1 {
            seq![digit_char(i0)] + rest
        } else {
            rest
        }
    }
}

/// The canonical text of a rule: both digit sets in ascending order,
/// separated by `/`.
pub open spec fn serialize_spec(r: Rule) -> Seq<char> {
    half_chars(r.bits, 0, 0) + seq!['/'] + half_chars(r.bits, 8, 0)
}

impl Rule {
    /// Whether a live cell with `n` live neighbors stays alive.
    pub open spec fn survives(self, n: int) -> bool {
        0 <= n < 8 && (self.bits >> (n as u16)) & 1 == 1
    }

    /// Whether a dead cell with `n` live neighbors becomes alive.
    pub open spec fn births(self, n: int) -> bool {
        0 <= n < 8 && (self.bits >> ((n + 8) as u16)) & 1 == 1
    }

    pub fn survive(&self, count: u8) -> (r: bool)
        ensures
            r == self.survives(count as int),
    {
        count < 8 && ((self.bits >> (count as u16)) & 1) == 1
    }

    pub fn born(&self, count: u8) -> (r: bool)
        ensures
            r == self.births(count as int),
    {
        count < 8 && ((self.bits >> ((count as u16) + 8)) & 1) == 1
    }

    /// Parses `"<survive digits>/<born digits>"` with digits drawn
    /// from 0..=7; duplicate digits are idempotent and each failure is
    /// reported for the leftmost offense, survival segment first.
    pub fn parse(s: &str) -> (r: Result<Rule, ParseError>)
        ensures
            r == parse_spec(s@),
    {
        let len = s.unicode_len();

        let mut cnt: usize = 0;
        let mut slash_pos: usize = 0;
        let mut i: usize = 0;
        proof {
            assert(s@.skip(0) =~= s@);
        }
        while i < len
            invariant
                i <= len,
                len == s@.len(),
                cnt <= i,
                count_char(s@, '/') == cnt + count_char(s@.skip(i as int), '/'),
                cnt == 0 ==> index_of_char(s@, '/') == i + index_of_char(s@.skip(i as int), '/'),
                cnt > 0 ==> index_of_char(s@, '/') == slash_pos && slash_pos < i && s@[
                    slash_pos as int
                ] == '/',
            decreases len - i,
        {
            let c = s.get_char(i);
            proof {
                assert(s@.skip(i as int).drop_first() =~= s@.skip(i as int + 1));
                assert(s@.skip(i as int)[0] == s@[i as int]);
            }
            if c == '/' {
                if cnt == 0 {
                    slash_pos = i;
                }
                cnt = cnt + 1;
            }
            i += 1;
        }
        proof {
            assert(s@.skip(len as int) =~= Seq::<char>::empty());
        }

        if cnt != 1 {
            return Err(ParseError::BadFormat);
        }

        let ghost sv = s@.subrange(0, slash_pos as int);
        let ghost bn = s@.subrange(slash_pos as int + 1, s@.len() as int);

        let mut acc: u16 = 0;
        let mut j: usize = 0;
        proof {
            assert(sv.skip(0) =~= sv);
        }
        while j < slash_pos
            invariant
                j <= slash_pos,
                slash_pos < len,
                len == s@.len(),
                count_char(s@, '/') == 1,
                index_of_char(s@, '/') == slash_pos as int,
                sv == s@.subrange(0, slash_pos as int),
                seg_error(sv, ParseError::InvalidSurvivalChar, ParseError::SurvivalOutOfRange)
                    == seg_error(
                    sv.skip(j as int),
                    ParseError::InvalidSurvivalChar,
                    ParseError::SurvivalOutOfRange,
                ),
                seg_bits(sv, 0, 0) == seg_bits(sv.skip(j as int), 0, acc),
            decreases slash_pos - j,
        {
            let c = s.get_char(j);
            proof {
                assert(sv.skip(j as int)[0] == sv[j as int]);
                assert(sv[j as int] == s@[j as int]);
                assert(sv.skip(j as int).drop_first() =~= sv.skip(j as int + 1));
            }
            let v = c as u32;
            if v < 48 || v > 57 {
                proof {
                    assert(!is_digit(sv.skip(j as int)[0]));
                    assert(seg_error(
                        sv.skip(j as int),
                        ParseError::InvalidSurvivalChar,
                        ParseError::SurvivalOutOfRange,
                    ) == Some(ParseError::InvalidSurvivalChar));
                    assert(parse_spec(s@) == Err::<Rule, ParseError>(ParseError::InvalidSurvivalChar));
                }
                return Err(ParseError::InvalidSurvivalChar);
            }
            let d = v - 48;
            if d >= 8 {
                proof {
                    assert(is_digit(sv.skip(j as int)[0]));
                    assert(digit_val(sv.skip(j as int)[0]) >= 8);
                    assert(seg_error(
                        sv.skip(j as int),
                        ParseError::InvalidSurvivalChar,
                        ParseError::SurvivalOutOfRange,
                    ) == Some(ParseError::SurvivalOutOfRange));
                    assert(parse_spec(s@) == Err::<Rule, ParseError>(ParseError::SurvivalOutOfRange));
                }
                return Err(ParseError::SurvivalOutOfRange);
            }
            acc = acc | (1u16 << (d as u16));
            j += 1;
        }
        proof {
            assert(sv.skip(slash_pos as int) =~= Seq::<char>::empty());
        }

        let mut j: usize = slash_pos + 1;
        proof {
            assert(bn.skip(0) =~= bn);
        }
        while j < len
            invariant
                slash_pos < j <= len,
                len == s@.len(),
                count_char(s@, '/') == 1,
                index_of_char(s@, '/') == slash_pos as int,
                sv == s@.subrange(0, slash_pos as int),
                bn == s@.subrange(slash_pos as int + 1, s@.len() as int),
                seg_error(sv, ParseError::InvalidSurvivalChar, ParseError::SurvivalOutOfRange)
                    is None,
                seg_error(bn, ParseError::InvalidBirthChar, ParseError::BirthOutOfRange)
                    == seg_error(
                    bn.skip(j - slash_pos - 1),
                    ParseError::InvalidBirthChar,
                    ParseError::BirthOutOfRange,
                ),
                seg_bits(bn, 8, seg_bits(sv, 0, 0)) == seg_bits(
                    bn.skip(j - slash_pos - 1),
                    8,
                    acc,
                ),
            decreases len - j,
        {
            let c = s.get_char(j);
            proof {
                assert(bn.skip(j - slash_pos - 1)[0] == bn[j - slash_pos - 1]);
                assert(bn[j - slash_pos - 1] == s@[j as int]);
                assert(bn.skip(j - slash_pos - 1).drop_first() =~= bn.skip(j - slash_pos));
            }
            let v = c as u32;
            if v < 48 || v > 57 {
                proof {
                    assert(!is_digit(bn.skip(j - slash_pos - 1)[0]));
                    assert(seg_error(
                        bn.skip(j - slash_pos - 1),
                        ParseError::InvalidBirthChar,
                        ParseError::BirthOutOfRange,
                    ) == Some(ParseError::InvalidBirthChar));
                    assert(parse_spec(s@) == Err::<Rule, ParseError>(ParseError::InvalidBirthChar));
                }
                return Err(ParseError::InvalidBirthChar);
            }
            let d = v - 48;
            if d >= 8 {
                proof {
                    assert(is_digit(bn.skip(j - slash_pos - 1)[0]));
                    assert(digit_val(bn.skip(j - slash_pos - 1)[0]) >= 8);
                    assert(seg_error(
                        bn.skip(j - slash_pos - 1),
                        ParseError::InvalidBirthChar,
                        ParseError::BirthOutOfRange,
                    ) == Some(ParseError::BirthOutOfRange));
                    assert(parse_spec(s@) == Err::<Rule, ParseError>(ParseError::BirthOutOfRange));
                }
                return Err(ParseError::BirthOutOfRange);
            }
            acc = acc | (1u16 << ((d as u16) + 8));
            j += 1;
        }
        proof {
            assert(bn.skip(len - slash_pos - 1) =~= Seq::<char>::empty());
        }

        Ok(Rule { bits: acc })
    }

    /// The canonical rule string: both digit sets in ascending order,
    /// whatever order the rule was built from.
    pub fn serialize(&self) -> (r: String)
        ensures
            r@ == serialize_spec(*self),
    {
        let mut out = String::new();
        proof {
            assert(out@ + half_chars(self.bits, 0, 0) =~= half_chars(self.bits, 0, 0));
        }
        let mut i: u8 = 0;
        while i < 8
            invariant
                i <= 8,
                half_chars(self.bits, 0, 0) == out@ + half_chars(self.bits, 0, i as int),
            decreases 8 - i,
        {
            let ghost pre = out@;
            if self.survive(i) {
                out.append(digit_str(i));
                proof {
                    assert(half_chars(self.bits, 0, i as int) =~= seq![digit_char(i as int)]
                        + half_chars(self.bits, 0, i as int + 1));
                    assert(pre + half_chars(self.bits, 0, i as int) =~= out@ + half_chars(
                        self.bits,
                        0,
                        i as int + 1,
                    ));
                }
            }
            i += 1;
        }
        proof {
            assert(half_chars(self.bits, 0, 8) =~= Seq::<char>::empty());
            assert(out@ =~= half_chars(self.bits, 0, 0));
        }

        let ghost first_half = out@;
        out.append("/");
        proof {
            reveal_strlit("/");
            assert(out@ =~= half_chars(self.bits, 0, 0) + seq!['/']);
        }

        let ghost with_sep = out@;
        let mut i: u8 = 0;
        while i < 8
            invariant
                i <= 8,
                with_sep == half_chars(self.bits, 0, 0) + seq!['/'],
                with_sep + half_chars(self.bits, 8, 0) == out@ + half_chars(
                    self.bits,
                    8,
                    i as int,
                ),
            decreases 8 - i,
        {
            let ghost pre = out@;
            if self.born(i) {
                out.append(digit_str(i));
                proof {
                    assert(half_chars(self.bits, 8, i as int) =~= seq![digit_char(i as int)]
                        + half_chars(self.bits, 8, i as int + 1));
                    assert(pre + half_chars(self.bits, 8, i as int) =~= out@ + half_chars(
                        self.bits,
                        8,
                        i as int + 1,
                    ));
                }
            }
            i += 1;
        }
        proof {
            assert(half_chars(self.bits, 8, 8) =~= Seq::<char>::empty());
            assert(with_sep + half_chars(self.bits, 8, 0) =~= out@);
            assert(out@ =~= serialize_spec(*self));
        }
        out
    }
}

/// The mask bits at positions `i0 + off` through `7 + off`.
spec fn half_mask(off: u16, i0: u16) -> u16 {
    ((0xFFu16 >> i0) << i0) << off
}

/// Every character a mask half serializes to is a digit below 8, so
/// the segment is clean and holds no separator.
proof fn lemma_half_chars_clean(bits: u16, off: int, i0: int, e1: ParseError, e2: ParseError)
    requires
        0 <= i0,
    ensures
        count_char(half_chars(bits, off, i0), '/') == 0,
        seg_error(half_chars(bits, off, i0), e1, e2) is None,
    decreases 8 - i0,
{
    if i0 >= 8 {
        assert(half_chars(bits, off, i0) =~= Seq::<char>::empty());
    } else {
        lemma_half_chars_clean(bits, off, i0 + 1, e1, e2);
        let rest = half_chars(bits, off, i0 + 1);
        if (bits >> ((i0 + off) as u16)) & 1 == 1 {
            let h = seq![digit_char(i0)] + rest;
            assert(h[0] == digit_char(i0));
            assert(h.drop_first() =~= rest);
            assert(is_digit(digit_char(i0)));
            assert(digit_val(digit_char(i0)) == i0);
            assert(digit_char(i0) != '/');
        }
    }
}

/// Occurrences of a character add up over concatenation.
proof fn lemma_count_char_concat(a: Seq<char>, b: Seq<char>, c: char)
    ensures
        count_char(a + b, c) == count_char(a, c) + count_char(b, c),
    decreases a.len(),
{
    if a.len() == 0 {
        assert(a + b =~= b);
    } else {
        assert((a + b).drop_first() =~= a.drop_first() + b);
        assert((a + b)[0] == a[0]);
        lemma_count_char_concat(a.drop_first(), b, c);
    }
}

/// When `c` does not occur in `a` and `b` starts with `c`, the first
/// occurrence of `c` in `a + b` sits right after `a`.
proof fn lemma_index_of_char_concat(a: Seq<char>, b: Seq<char>, c: char)
    requires
        count_char(a, c) == 0,
        b.len() > 0,
        b[0] == c,
    ensures
        index_of_char(a + b, c) == a.len(),
    decreases a.len(),
{
    if a.len() == 0 {
        assert(a + b =~= b);
    } else {
        assert(a[0] != c) by {
            if a[0] == c {
                assert(count_char(a, c) >= 1) by {
                    lemma_count_char_nonneg(a.drop_first(), c);
                }
            }
        }
        assert((a + b)[0] == a[0]);
        assert((a + b).drop_first() =~= a.drop_first() + b);
        lemma_index_of_char_concat(a.drop_first(), b, c);
    }
}

proof fn lemma_count_char_nonneg(s: Seq<char>, c: char)
    ensures
        count_char(s, c) >= 0,
    decreases s.len(),
{
    if s.len() > 0 {
        lemma_count_char_nonneg(s.drop_first(), c);
    }
}

/// Parsing a serialized mask half accumulates exactly the mask bits of
/// that half on top of the accumulator.
proof fn lemma_seg_bits_half(bits: u16, off: int, i0: int, acc: u16)
    requires
        off == 0 || off == 8,
        0 <= i0 <= 8,
    ensures
        seg_bits(half_chars(bits, off, i0), off, acc) == acc | (bits & half_mask(
            off as u16,
            i0 as u16,
        )),
    decreases 8 - i0,
{
    let i0u = i0 as u16;
    let offu = off as u16;
    let m0 = half_mask(offu, i0u);
    if i0 == 8 {
        assert(half_chars(bits, off, i0) =~= Seq::<char>::empty());
        assert(acc | (bits & m0) == acc) by (bit_vector)
            requires
                m0 == ((0xFFu16 >> 8) << 8) << offu,
        ;
    } else {
        let rest = half_chars(bits, off, i0 + 1);
        let m1 = half_mask(offu, (i0 + 1) as u16);
        assert((i0u + offu) as u16 == (i0 + off) as u16);
        assert(((i0 + 1) as u16) == (i0u + 1) as u16);
        if (bits >> ((i0 + off) as u16)) & 1 == 1 {
            let h = seq![digit_char(i0)] + rest;
            assert(h[0] == digit_char(i0));
            assert(h.drop_first() =~= rest);
            assert(digit_val(digit_char(i0)) == i0);
            let acc1 = acc | (1u16 << ((i0 + off) as u16));
            assert(seg_bits(h, off, acc) == seg_bits(rest, off, acc1));
            lemma_seg_bits_half(bits, off, i0 + 1, acc1);
            assert((acc | (1u16 << ((i0u + offu) as u16))) | (bits & m1) == acc | (bits & m0))
                by (bit_vector)
                requires
                    i0u < 8,
                    offu == 0 || offu == 8,
                    m0 == ((0xFFu16 >> i0u) << i0u) << offu,
                    m1 == ((0xFFu16 >> ((i0u + 1) as u16)) << ((i0u + 1) as u16)) << offu,
                    ((bits >> ((i0u + offu) as u16)) & 1) == 1,
            ;
        } else {
            lemma_seg_bits_half(bits, off, i0 + 1, acc);
            assert(acc | (bits & m1) == acc | (bits & m0)) by (bit_vector)
                requires
                    i0u < 8,
                    offu == 0 || offu == 8,
                    m0 == ((0xFFu16 >> i0u) << i0u) << offu,
                    m1 == ((0xFFu16 >> ((i0u + 1) as u16)) << ((i0u + 1) as u16)) << offu,
                    ((bits >> ((i0u + offu) as u16)) & 1) != 1,
            ;
        }
    }
}

/// Round trip: parsing the canonical text of any rule gives back
/// exactly that rule, whatever order its digits were first written in.
pub proof fn lemma_rule_roundtrip(r: Rule)
    ensures
        parse_spec(serialize_spec(r)) == Ok::<Rule, ParseError>(r),
{
    let sv = half_chars(r.bits, 0, 0);
    let bn = half_chars(r.bits, 8, 0);
    let sep = seq!['/'];
    let s = serialize_spec(r);
    assert(s =~= sv + (sep + bn));

    lemma_half_chars_clean(r.bits, 0, 0, ParseError::InvalidSurvivalChar, ParseError::SurvivalOutOfRange);
    lemma_half_chars_clean(r.bits, 8, 0, ParseError::InvalidBirthChar, ParseError::BirthOutOfRange);

    assert(count_char(sep, '/') == 1) by {
        assert(sep.len() == 1);
        assert(sep[0] == '/');
        assert(sep.drop_first() =~= Seq::<char>::empty());
        assert(count_char(Seq::<char>::empty(), '/') == 0);
        assert(count_char(sep, '/') == 1 + count_char(sep.drop_first(), '/'));
    }
    lemma_count_char_concat(sep, bn, '/');
    lemma_count_char_concat(sv, sep + bn, '/');
    assert((sep + bn)[0] == '/');
    lemma_index_of_char_concat(sv, sep + bn, '/');
    assert(count_char(s, '/') == 1);
    assert(index_of_char(s, '/') == sv.len());

    assert(s.subrange(0, sv.len() as int) =~= sv);
    assert(s.subrange(sv.len() as int + 1, s.len() as int) =~= bn);

    lemma_seg_bits_half(r.bits, 0, 0, 0);
    lemma_seg_bits_half(r.bits, 8, 0, 0 | (r.bits & half_mask(0, 0)));
    let bits = r.bits;
    let acc1 = 0 | (bits & half_mask(0, 0));
    let m00 = half_mask(0, 0);
    let m80 = half_mask(8, 0);
    assert(acc1 | (bits & m80) == bits) by (bit_vector)
        requires
            acc1 == 0 | (bits & m00),
            m00 == ((0xFFu16 >> 0) << 0) << 0,
            m80 == ((0xFFu16 >> 0) << 0) << 8,
    ;
}

/// The one-character string for a digit in 0..=7.
fn digit_str(d: u8) -> (r: &'static str)
    requires
        d < 8,
    ensures
        r@ =~= seq![digit_char(d as int)],
{
    proof {
        reveal_strlit("0");
        reveal_strlit("1");
        reveal_strlit("2");
        reveal_strlit("3");
        reveal_strlit("4");
        reveal_strlit("5");
        reveal_strlit("6");
        reveal_strlit("7");
    }
    match d {
        0 => "0",
        1 => "1",
        2 => "2",
        3 => "3",
        4 => "4",
        5 => "5",
        6 => "6",
        _ => "7",
    }
}

} // verus!
