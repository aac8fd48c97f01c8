//! A single pattern unit: a value together with a mask that says which bits of
//! the value are pinned down.  Mask bit 0 means the corresponding data bit may
//! be anything.

use vstd::prelude::*;
use vstd::string::StrSliceExecFns;

verus! {

/// Why a unit literal failed to parse.
#[derive(Debug, PartialEq, Eq)]
pub enum Error {
    /// A digit was forced out of the top of the unit.
    NumberTooBig,
    /// A character that is neither `?` nor a digit of the selected radix.
    InvalidChar { char: char },
    /// The literal does not start with `0b`, `0o` or `0x`.
    UnknownPrefix,
}

/// A value/mask pair over one byte.  Bits of `value` where `mask` is 0 carry
/// no information.
#[derive(Clone, Copy, Debug, PartialEq, Eq, Structural)]
pub struct MaskedByte {
    pub value: u8,
    pub mask: u8,
}

impl MaskedByte {
    /// True when `data` agrees with `value` on every masked bit.
    pub open spec fn spec_matches(self, data: u8) -> bool {
        data & self.mask == self.value & self.mask
    }

    /// `data` with every masked bit overwritten by the corresponding bit of
    /// `value`; unmasked bits are left alone.
    pub open spec fn spec_set(self, data: u8) -> u8 {
        (data & !self.mask) | (self.value & self.mask)
    }

    /// Every bit pinned down.
    pub open spec fn is_defined(self) -> bool {
        self.mask == 0xff
    }

    /// Returns a new MaskedByte.
    pub fn new(value: u8, mask: u8) -> (r: Self)
        ensures
            r == (MaskedByte { value, mask }),
    {
        Self { value, mask }
    }

    /// Matches data against the unit: where a mask bit is 1 the value bit has
    /// to fit the data, where it is 0 the data bit may be anything.
    pub fn matches(&self, data: u8) -> (r: bool)
        ensures
            r == self.spec_matches(data),
    {
        data & self.mask == self.value & self.mask
    }

    /// Sets data bits to value bits where mask bits are 1.
    pub fn set(&self, data: u8) -> (r: u8)
        ensures
            r == self.spec_set(data),
    {
        (data & !self.mask) | (self.value & self.mask)
    }

    /// Returns the value only when the unit is fully defined.
    pub fn defined(&self) -> (r: Option<u8>)
        ensures
            r == if self.is_defined() {
                Some(self.value)
            } else {
                None::<u8>
            },
    {
        if self.mask == 0xff {
            Some(self.value)
        } else {
            None
        }
    }
}

/// The character the bit at position `i` of the unit's text shows, most
/// significant bit first: `?` where the mask leaves the bit undefined, else
/// the value bit.
pub open spec fn bit_char(value: u8, mask: u8, i: int) -> char
    recommends
        0 <= i < 8,
{
    if (mask >> ((7 - i) as u8)) & 1 == 0 {
        '?'
    } else if (value >> ((7 - i) as u8)) & 1 == 0 {
        '0'
    } else {
        '1'
    }
}

/// The eight-character text of a unit, most significant bit first.
pub open spec fn unit_chars(mb: MaskedByte) -> Seq<char> {
    Seq::new(8, |i: int| bit_char(mb.value, mb.mask, i))
}

impl MaskedByte {
    /// The unit as text, one character per bit, most significant first; `?`
    /// stands for a bit the mask leaves undefined.
    pub fn to_bit_string(&self) -> (r: String)
        ensures
            r@ == unit_chars(*self),
    {
        let mut r = String::new();
        let mut i: usize = 0;
        while i < 8
            invariant
                0 <= i <= 8,
                r@.len() == i,
                forall|j: int| 0 <= j < i ==> r@[j] == bit_char(self.value, self.mask, j),
            decreases 8 - i,
        {
            proof {
                reveal_strlit("?");
                reveal_strlit("0");
                reveal_strlit("1");
            }
            let shift: u8 = (7 - i) as u8;
            if (self.mask >> shift) & 1 == 0 {
                r.append("?");
            } else if (self.value >> shift) & 1 == 0 {
                r.append("0");
            } else {
                r.append("1");
            }
            i = i + 1;
        }
        proof {
            assert(r@ =~= unit_chars(*self));
        }
        r
    }
}

/// The number of bits a unit of type `T` spans.
pub fn bits<T>() -> (r: u32)
    requires
        vstd::layout::size_of::<T>() * 8 <= u32::MAX,
    ensures
        r == vstd::layout::size_of::<T>() * 8,
{
    (core::mem::size_of::<T>() * 8) as u32
}

/// The value a character contributes as a digit, or 36 when it is no digit at
/// all.  Characters `0`-`9`, `a`-`z` and `A`-`Z` carry values 0 to 35; a digit
/// is valid for a radix exactly when its value is below the radix.
pub open spec fn digit_val(c: char) -> u32 {
    let u = c as u32;
    if 48 <= u && u <= 57 {
        (u - 48) as u32
    } else if 97 <= u && u <= 122 {
        (u - 87) as u32
    } else if 65 <= u && u <= 90 {
        (u - 55) as u32
    } else {
        36
    }
}

/// The radix selected by a group width of `bits` bits per character.
pub open spec fn radix_of(bits: u8) -> u32
    recommends
        bits < 8,
{
    (1u32 << (bits as u32)) as u32
}

/// The mask covering one digit group of `bits` bits.
pub open spec fn group_mask(bits: u8) -> u8
    recommends
        bits < 8,
{
    ((1u8 << bits) - 1) as u8
}

/// One step of the literal parse: shift the accumulated value and mask one
/// digit group to the left, failing when a value bit or an undefined marker
/// would be forced out the top, then fold in the next character.  `value`
/// starts at all zeroes and `mask` at all ones, so leading zeroes of either
/// kind shift out without harm.
pub open spec fn parse_step(value: u8, mask: u8, bits: u8, c: char) -> Result<(u8, u8), Error>
    recommends
        0 < bits < 8,
{
    if value >> ((8 - bits) as u8) != 0 {
        Err(Error::NumberTooBig)
    } else if (!mask) >> ((8 - bits) as u8) != 0 {
        Err(Error::NumberTooBig)
    } else {
        let v = (value << bits) as u8;
        let m = (mask << bits) as u8;
        if c == '?' {
            Ok((v, m))
        } else if digit_val(c) < radix_of(bits) {
            Ok((((v | (digit_val(c) as u8))) as u8, ((m | group_mask(bits))) as u8))
        } else {
            Err(Error::InvalidChar { char: c })
        }
    }
}

/// The parse of a run of digit characters, left to right, starting from value
/// 0 and mask all ones; the first failing step aborts the parse.
pub open spec fn parse_digits(chars: Seq<char>, bits: u8) -> Result<(u8, u8), Error>
    recommends
        0 < bits < 8,
    decreases chars.len(),
{
    if chars.len() == 0 {
        Ok((0u8, 0xffu8))
    } else {
        match parse_digits(chars.drop_last(), bits) {
            Ok(vm) => parse_step(vm.0, vm.1, bits, chars.last()),
            Err(e) => Err(e),
        }
    }
}

/// The group width selected by the literal's two-character prefix, if any.
pub open spec fn prefix_bits(s: Seq<char>) -> Option<u8> {
    if s.len() >= 2 && s[0] == '0' && s[1] == 'b' {
        Some(1u8)
    } else if s.len() >= 2 && s[0] == '0' && s[1] == 'o' {
        Some(3u8)
    } else if s.len() >= 2 && s[0] == '0' && s[1] == 'x' {
        Some(4u8)
    } else {
        None
    }
}

/// The complete parse of one unit literal: prefix, then digits.
pub open spec fn parse_unit(s: Seq<char>) -> Result<MaskedByte, Error> {
    match prefix_bits(s) {
        None => Err(Error::UnknownPrefix),
        Some(bits) => match parse_digits(s.skip(2), bits) {
            Ok(vm) => Ok(MaskedByte { value: vm.0, mask: vm.1 }),
            Err(e) => Err(e),
        },
    }
}

/// A successfully parsed digit run is fully pinned down exactly when it holds
/// no wildcard character.
pub proof fn lemma_digits_defined_iff_no_wildcard(chars: Seq<char>, bits: u8, v: u8, m: u8)
    requires
        bits == 1 || bits == 3 || bits == 4,
        parse_digits(chars, bits) == Ok::<(u8, u8), Error>((v, m)),
    ensures
        m == 0xff <==> (forall|i: int| 0 <= i < chars.len() ==> chars[i] != '?'),
    decreases chars.len(),
{
    if chars.len() == 0 {
    } else {
        let prev = parse_digits(chars.drop_last(), bits);
        let v0 = prev->Ok_0.0;
        let m0 = prev->Ok_0.1;
        assert(prev is Ok);
        lemma_digits_defined_iff_no_wildcard(chars.drop_last(), bits, v0, m0);
        let c = chars.last();
        assert(parse_step(v0, m0, bits, c) == Ok::<(u8, u8), Error>((v, m)));
        assert((!m0) >> ((8 - bits) as u8) == 0);
        assert(forall|i: int|
            0 <= i < chars.len() - 1 ==> #[trigger] chars[i] == chars.drop_last()[i]);
        if c == '?' {
            assert(m == (m0 << bits) as u8);
            assert(((m0 << bits) as u8) != 0xff) by (bit_vector)
                requires
                    bits == 1 || bits == 3 || bits == 4,
            ;
            assert(chars[chars.len() - 1] == '?');
        } else {
            assert(m == (((m0 << bits) as u8) | (((1u8 << bits) - 1) as u8)));
            assert((!m0) >> ((8 - bits) as u8) == 0 ==> ((((m0 << bits) as u8) | (((1u8 << bits)
                - 1) as u8)) == 0xff <==> m0 == 0xff)) by (bit_vector)
                requires
                    bits == 1 || bits == 3 || bits == 4,
            ;
            assert(chars[chars.len() - 1] != '?');
            if m == 0xff {
                assert(forall|i: int| 0 <= i < chars.len() ==> chars[i] != '?');
            }
            if forall|i: int| 0 <= i < chars.len() ==> chars[i] != '?' {
                assert(forall|i: int|
                    0 <= i < chars.drop_last().len() ==> #[trigger] chars.drop_last()[i]
                        != '?');
                assert(m0 == 0xff);
            }
        }
    }
}

/// `defined()` exposes a value exactly when the literal holds no `?`.
pub proof fn lemma_defined_iff_no_wildcard(s: Seq<char>, mb: MaskedByte)
    requires
        parse_unit(s) == Ok::<MaskedByte, Error>(mb),
    ensures
        mb.is_defined() <==> (forall|i: int| 0 <= i < s.len() ==> s[i] != '?'),
{
    let bits = prefix_bits(s)->0;
    lemma_digits_defined_iff_no_wildcard(s.skip(2), bits, mb.value, mb.mask);
    assert(forall|i: int| 2 <= i < s.len() ==> s[i] == #[trigger] s.skip(2)[i - 2]);
    if forall|i: int| 0 <= i < s.skip(2).len() ==> s.skip(2)[i] != '?' {
        assert(forall|i: int| 0 <= i < s.len() ==> s[i] != '?') by {
            assert(forall|i: int|
                2 <= i < s.len() ==> #[trigger] s[i] == s.skip(2)[i - 2] && s.skip(2)[i
                    - 2] != '?');
        }
    }
    if forall|i: int| 0 <= i < s.len() ==> s[i] != '?' {
        assert(forall|i: int|
            0 <= i < s.skip(2).len() ==> #[trigger] s.skip(2)[i] == s[i + 2] && s[i + 2] != '?');
    }
}

/// A parse that fails on a prefix of the digits fails on the whole run with
/// the same error.
proof fn lemma_parse_digits_err_prefix(chars: Seq<char>, j: int, bits: u8)
    requires
        0 <= j <= chars.len(),
        parse_digits(chars.take(j), bits) is Err,
    ensures
        parse_digits(chars, bits) == parse_digits(chars.take(j), bits),
    decreases chars.len() - j,
{
    if j == chars.len() {
        assert(chars.take(j) =~= chars);
    } else {
        assert(chars.take(j + 1).drop_last() =~= chars.take(j));
        assert(chars.take(j + 1).len() != 0);
        lemma_parse_digits_err_prefix(chars, j + 1, bits);
    }
}

impl MaskedByte {
    /// The digit value of `c`, or 36 when `c` is no digit at all.
    fn digit_value(c: char) -> (r: u32)
        ensures
            r == digit_val(c),
    {
        let u = c as u32;
        if 48 <= u && u <= 57 {
            u - 48
        } else if 97 <= u && u <= 122 {
            u - 87
        } else if 65 <= u && u <= 90 {
            u - 55
        } else {
            36
        }
    }

    /// Creates a MaskedByte from its string representation.  The string needs
    /// a base prefix: `0b` for binary, `0o` for octal and `0x` for hexadecimal
    /// digits.  The `?` character stands for an undefined digit: both its
    /// value and its mask bits stay 0.
    ///
    /// `0x?5` equals `0b????0101`, a value of `0b00000101` under a mask of
    /// `0b00001111`.
    pub fn from_str(string: &str) -> (r: Result<Self, crate::Error>)
        ensures
            match r {
                Ok(mb) => parse_unit(string@) == Ok::<MaskedByte, Error>(mb),
                Err(e) => {
                    &&& e matches crate::Error::ParseError { string: lit, source }
                    &&& lit@ == string@
                    &&& parse_unit(string@) == Err::<MaskedByte, Error>(source)
                },
            },
    {
        let n = string.unicode_len();
        let bits: u8;
        if n >= 2 && string.get_char(0) == '0' && string.get_char(1) == 'b' {
            bits = 1;
        } else if n >= 2 && string.get_char(0) == '0' && string.get_char(1) == 'o' {
            bits = 3;
        } else if n >= 2 && string.get_char(0) == '0' && string.get_char(1) == 'x' {
            bits = 4;
        } else {
            return Err(
                crate::Error::ParseError {
                    string: string.to_owned(),
                    source: Error::UnknownPrefix,
                },
            );
        }
        assert(prefix_bits(string@) == Some(bits));
        let ghost digits = string@.skip(2);
        let mut value: u8 = 0;
        let mut mask: u8 = 0xff;
        let mut i: usize = 2;
        assert(string@.subrange(2, 2) =~= digits.take(0));
        while i < n
            invariant
                2 <= i <= n,
                n == string@.len(),
                bits == 1 || bits == 3 || bits == 4,
                digits == string@.skip(2),
                prefix_bits(string@) == Some(bits),
                parse_digits(digits.take(i - 2), bits) == Ok::<(u8, u8), Error>((value, mask)),
            decreases n - i,
        {
            let c = string.get_char(i);
            proof {
                assert(digits.take(i - 2 + 1).drop_last() =~= digits.take(i - 2));
                assert(digits.take(i - 2 + 1).last() == c);
            }
            let shift: u8 = 8 - bits;
            if value >> shift != 0 {
                proof {
                    lemma_parse_digits_err_prefix(digits, i - 2 + 1, bits);
                }
                return Err(
                    crate::Error::ParseError {
                        string: string.to_owned(),
                        source: Error::NumberTooBig,
                    },
                );
            }
            if !mask >> shift != 0 {
                proof {
                    lemma_parse_digits_err_prefix(digits, i - 2 + 1, bits);
                }
                return Err(
                    crate::Error::ParseError {
                        string: string.to_owned(),
                        source: Error::NumberTooBig,
                    },
                );
            }
            value = value << bits;
            mask = mask << bits;
            if c == '?' {
                // both value and mask bits of this group stay 0
            } else {
                let d = Self::digit_value(c);
                if d < (1u32 << (bits as u32)) {
                    value = value | (d as u8);
                    assert((1u8 << bits) >= 1) by (bit_vector)
                        requires
                            bits == 1 || bits == 3 || bits == 4,
                    ;
                    mask = mask | ((1u8 << bits) - 1);
                } else {
                    proof {
                        lemma_parse_digits_err_prefix(digits, i - 2 + 1, bits);
                    }
                    return Err(
                        crate::Error::ParseError {
                            string: string.to_owned(),
                            source: Error::InvalidChar { char: c },
                        },
                    );
                }
            }
            i = i + 1;
        }
        proof {
            assert(digits.take(n - 2) =~= digits);
        }
        Ok(Self { value, mask })
    }
}

impl Default for MaskedByte {
    /// A unit with nothing pinned down.
    fn default() -> (r: Self)
        ensures
            r == (MaskedByte { value: 0u8, mask: 0u8 }),
    {
        Self { value: 0, mask: 0 }
    }
}

} // verus!
