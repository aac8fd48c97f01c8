//! An ordered, fixed-length sequence of masked units, together with the
//! replacement it induces on a data run.

use vstd::prelude::*;
use vstd::string::StrSliceExecFns;

use crate::masked_byte::MaskedByte;
use crate::masked_byte::parse_unit;

verus! {

/// The characters that separate unit literals.
pub open spec fn is_space(c: char) -> bool {
    c == ' ' || c == '\t' || c == '\n' || c == '\u{b}' || c == '\u{c}' || c == '\r'
}

/// The length of the run of non-space characters at the front.
pub open spec fn token_len(s: Seq<char>) -> int
    decreases s.len(),
{
    if s.len() == 0 || is_space(s[0]) {
        0
    } else {
        1 + token_len(s.drop_first())
    }
}

proof fn lemma_token_len_bounds(s: Seq<char>)
    ensures
        0 <= token_len(s) <= s.len(),
    decreases s.len(),
{
    if s.len() != 0 && !is_space(s[0]) {
        lemma_token_len_bounds(s.drop_first());
    }
}

/// The whitespace-separated tokens of a literal list, in order.
pub open spec fn split_tokens(s: Seq<char>) -> Seq<Seq<char>>
    decreases s.len(),
    via split_tokens_decreases
{
    if s.len() == 0 {
        Seq::empty()
    } else if is_space(s[0]) {
        split_tokens(s.drop_first())
    } else {
        seq![s.take(token_len(s))] + split_tokens(s.skip(token_len(s)))
    }
}

#[via_fn]
proof fn split_tokens_decreases(s: Seq<char>) {
    lemma_token_len_bounds(s);
    if s.len() != 0 && !is_space(s[0]) {
        lemma_token_len_bounds(s.drop_first());
    }
}

/// The units a token list parses to, or the first failing token with its
/// error.
pub open spec fn parse_token_list(toks: Seq<Seq<char>>) -> Result<
    Seq<MaskedByte>,
    (Seq<char>, crate::masked_byte::Error),
>
    decreases toks.len(),
{
    if toks.len() == 0 {
        Ok(Seq::empty())
    } else {
        match parse_token_list(toks.drop_last()) {
            Ok(units) => match parse_unit(toks.last()) {
                Ok(mb) => Ok(units.push(mb)),
                Err(e) => Err((toks.last(), e)),
            },
            Err(e) => Err(e),
        }
    }
}

/// The complete parse of a pattern literal.
pub open spec fn parse_pattern(s: Seq<char>) -> Result<
    Seq<MaskedByte>,
    (Seq<char>, crate::masked_byte::Error),
> {
    parse_token_list(split_tokens(s))
}

/// A token is exactly the run of non-space characters a scan finds: `j` steps
/// of non-space, then a space or the end.
proof fn lemma_token_len_exact(t: Seq<char>, j: int)
    requires
        0 <= j <= t.len(),
        forall|m: int| 0 <= m < j ==> !is_space(#[trigger] t[m]),
        j == t.len() || is_space(t[j]),
    ensures
        token_len(t) == j,
    decreases j,
{
    if j == 0 {
    } else {
        assert(!is_space(t[0]));
        assert(forall|m: int| 0 <= m < j - 1 ==> #[trigger] t.drop_first()[m] == t[m + 1]);
        lemma_token_len_exact(t.drop_first(), j - 1);
    }
}

/// Parsing a token list starting with `t` parses `t` first; its failure wins,
/// and its unit stands in front of the rest.
#[verifier::spinoff_prover]
#[verifier::rlimit(30)]
proof fn lemma_parse_token_list_cons(t: Seq<char>, toks: Seq<Seq<char>>)
    ensures
        parse_token_list(seq![t] + toks) == (match parse_unit(t) {
            Err(e) => Err::<Seq<MaskedByte>, (Seq<char>, crate::masked_byte::Error)>((t, e)),
            Ok(mb) => match parse_token_list(toks) {
                Ok(units) => Ok(seq![mb] + units),
                Err(te) => Err(te),
            },
        }),
    decreases toks.len(),
{
    let all = seq![t] + toks;
    if toks.len() == 0 {
        assert(all.drop_last() =~= Seq::<Seq<char>>::empty());
        assert(all.last() == t);
        assert(all.len() == 1);
        assert(parse_token_list(Seq::<Seq<char>>::empty()) == Ok::<
            Seq<MaskedByte>,
            (Seq<char>, crate::masked_byte::Error),
        >(Seq::empty()));
        match parse_unit(t) {
            Ok(mb) => {
                assert(parse_token_list(all) == Ok::<
                    Seq<MaskedByte>,
                    (Seq<char>, crate::masked_byte::Error),
                >(Seq::<MaskedByte>::empty().push(mb)));
                assert(Seq::<MaskedByte>::empty().push(mb) =~= seq![mb]
                    + Seq::<MaskedByte>::empty());
                assert(parse_token_list(toks) == Ok::<
                    Seq<MaskedByte>,
                    (Seq<char>, crate::masked_byte::Error),
                >(Seq::empty()));
            },
            Err(e) => {
                assert(parse_token_list(all) == Err::<
                    Seq<MaskedByte>,
                    (Seq<char>, crate::masked_byte::Error),
                >((t, e)));
            },
        }
    } else {
        assert(all.drop_last() =~= seq![t] + toks.drop_last());
        assert(all.last() == toks.last());
        lemma_parse_token_list_cons(t, toks.drop_last());
        match parse_unit(t) {
            Err(e) => {
                assert(parse_token_list(seq![t] + toks.drop_last()) == Err::<
                    Seq<MaskedByte>,
                    (Seq<char>, crate::masked_byte::Error),
                >((t, e)));
                assert(parse_token_list(all) == Err::<
                    Seq<MaskedByte>,
                    (Seq<char>, crate::masked_byte::Error),
                >((t, e)));
            },
            Ok(mb) => {
                match parse_token_list(toks.drop_last()) {
                    Err(te) => {
                        assert(parse_token_list(toks) == Err::<
                            Seq<MaskedByte>,
                            (Seq<char>, crate::masked_byte::Error),
                        >(te));
                    },
                    Ok(units0) => {
                        assert(parse_token_list(seq![t] + toks.drop_last()) == Ok::<
                            Seq<MaskedByte>,
                            (Seq<char>, crate::masked_byte::Error),
                        >(seq![mb] + units0));
                        match parse_unit(toks.last()) {
                            Err(e2) => {
                                assert(parse_token_list(all) == Err::<
                                    Seq<MaskedByte>,
                                    (Seq<char>, crate::masked_byte::Error),
                                >((toks.last(), e2)));
                                assert(parse_token_list(toks) == Err::<
                                    Seq<MaskedByte>,
                                    (Seq<char>, crate::masked_byte::Error),
                                >((toks.last(), e2)));
                            },
                            Ok(mb2) => {
                                assert(parse_token_list(all) == Ok::<
                                    Seq<MaskedByte>,
                                    (Seq<char>, crate::masked_byte::Error),
                                >((seq![mb] + units0).push(mb2)));
                                assert(parse_token_list(toks) == Ok::<
                                    Seq<MaskedByte>,
                                    (Seq<char>, crate::masked_byte::Error),
                                >(units0.push(mb2)));
                                assert((seq![mb] + units0).push(mb2) =~= seq![mb]
                                    + units0.push(mb2));
                            },
                        }
                    },
                }
            },
        }
    }
}

/// Pattern is a container of MaskedBytes.
#[derive(Debug)]
pub struct Pattern {
    values: Vec<MaskedByte>,
}

impl View for Pattern {
    type V = Seq<MaskedByte>;

    closed spec fn view(&self) -> Seq<MaskedByte> {
        self.values@
    }
}

impl Pattern {
    /// An empty pattern.
    pub fn new() -> (r: Self)
        ensures
            r@ == Seq::<MaskedByte>::empty(),
    {
        Self { values: Vec::new() }
    }

    /// The unit at `index`, if the pattern is that long.
    pub fn get(&self, index: usize) -> (r: Option<&MaskedByte>)
        ensures
            match r {
                Some(mb) => index < self@.len() && *mb == self@[index as int],
                None => index >= self@.len(),
            },
    {
        if index < self.values.len() {
            Some(&self.values[index])
        } else {
            None
        }
    }

    /// The number of units.
    pub fn len(&self) -> (r: usize)
        ensures
            r == self@.len(),
    {
        self.values.len()
    }

    /// True when the pattern has no units.
    pub fn is_empty(&self) -> (r: bool)
        ensures
            r == (self@.len() == 0),
    {
        self.len() == 0
    }
}

/// Every unit of `p` that overhangs the end of `data` is fully defined, so
/// the replacement of `data` under `p` succeeds.
pub open spec fn replace_defined_ok(p: Seq<MaskedByte>, data: Seq<u8>) -> bool {
    forall|i: int| data.len() <= i < p.len() ==> (#[trigger] p[i]).is_defined()
}

/// The run a successful replacement produces: units under the pattern are
/// overwritten on their masked bits, units beyond the pattern stay as they
/// are, and the overhang appends the pattern's fully defined values.
pub open spec fn replace_result(p: Seq<MaskedByte>, data: Seq<u8>) -> Seq<u8> {
    Seq::new(
        if data.len() >= p.len() {
            data.len()
        } else {
            p.len()
        },
        |i: int|
            if i < p.len() {
                if i < data.len() {
                    p[i].spec_set(data[i])
                } else {
                    p[i].value
                }
            } else {
                data[i]
            },
    )
}

/// True exactly when `c` separates unit literals.
fn is_space_char(c: char) -> (r: bool)
    ensures
        r == is_space(c),
{
    c == ' ' || c == '\t' || c == '\n' || c == '\u{b}' || c == '\u{c}' || c == '\r'
}

impl Pattern {
    /// Parses a whitespace-separated list of MaskedByte literals, preserving
    /// order; the first literal that fails to parse aborts the whole parse
    /// with that literal attached to the error.
    pub fn from_str(string: &str) -> (r: Result<Self, crate::Error>)
        ensures
            match r {
                Ok(p) => parse_pattern(string@) == Ok::<
                    Seq<MaskedByte>,
                    (Seq<char>, crate::masked_byte::Error),
                >(p@),
                Err(e) => {
                    &&& e matches crate::Error::ParseError { string: lit, source }
                    &&& parse_pattern(string@) matches Err(te)
                    &&& lit@ == te.0
                    &&& source == te.1
                },
            },
    {
        let n = string.unicode_len();
        let mut values: Vec<MaskedByte> = Vec::new();
        let mut i: usize = 0;
        proof {
            assert(string@.skip(0) =~= string@);
            if parse_pattern(string@) is Ok {
                assert(parse_pattern(string@)->Ok_0 =~= values@ + parse_pattern(string@)->Ok_0);
            }
        }
        while i < n
            invariant
                0 <= i <= n,
                n == string@.len(),
                (parse_pattern(string@) matches Ok(all) ==> parse_token_list(
                    split_tokens(string@.skip(i as int)),
                ) matches Ok(rest) && all == values@ + rest),
                (parse_pattern(string@) is Err ==> parse_token_list(
                    split_tokens(string@.skip(i as int)),
                ) == parse_pattern(string@)),
            decreases n - i,
        {
            let c = string.get_char(i);
            if is_space_char(c) {
                proof {
                    assert(string@.skip(i as int).drop_first() =~= string@.skip(i + 1));
                }
                i = i + 1;
            } else {
                let start = i;
                i = i + 1;
                while i < n && !is_space_char(string.get_char(i))
                    invariant
                        start < i <= n,
                        n == string@.len(),
                        forall|m: int| start <= m < i ==> !is_space(#[trigger] string@[m]),
                    decreases n - i,
                {
                    i = i + 1;
                }
                proof {
                    let suf = string@.skip(start as int);
                    assert(forall|m: int|
                        0 <= m < i - start ==> #[trigger] suf[m] == string@[m + start]);
                    assert(i == n || is_space(suf[i - start]));
                    lemma_token_len_exact(suf, i - start);
                    assert(suf.take(i - start) =~= string@.subrange(start as int, i as int));
                    assert(suf.skip(i - start) =~= string@.skip(i as int));
                    lemma_parse_token_list_cons(
                        string@.subrange(start as int, i as int),
                        split_tokens(string@.skip(i as int)),
                    );
                }
                let tok = string.substring_char(start, i);
                match MaskedByte::from_str(tok) {
                    Ok(mb) => {
                        values.push(mb);
                        proof {
                            if parse_pattern(string@) is Ok {
                                let all = parse_pattern(string@)->Ok_0;
                                let rest0 = parse_token_list(
                                    split_tokens(string@.skip(start as int)),
                                )->Ok_0;
                                let rest1 = parse_token_list(
                                    split_tokens(string@.skip(i as int)),
                                )->Ok_0;
                                assert(rest0 =~= seq![mb] + rest1);
                                assert(values@ + rest1 =~= (values@.drop_last()) + rest0);
                                assert(all =~= values@ + rest1);
                            }
                        }
                    },
                    Err(e) => {
                        return Err(e);
                    },
                }
            }
        }
        proof {
            assert(string@.skip(n as int) =~= Seq::<char>::empty());
            if parse_pattern(string@) is Ok {
                assert(parse_pattern(string@)->Ok_0 =~= values@);
            }
        }
        Ok(Self { values })
    }

    /// Takes a data run, overwrites the units the pattern covers, appends the
    /// fully defined overhang, and returns the result; an overhanging unit
    /// that is not fully defined fails the whole call.  The result is as long
    /// as the longer of data and pattern.
    pub fn replace(&self, data: Vec<u8>) -> (r: Result<Vec<u8>, crate::Error>)
        ensures
            match r {
                Ok(out) => replace_defined_ok(self@, data@) && out@ == replace_result(
                    self@,
                    data@,
                ),
                Err(e) => !replace_defined_ok(self@, data@) && e
                    == crate::Error::ReplaceNotDefined,
            },
    {
        let n = self.values.len();
        let mut out: Vec<u8> = Vec::new();
        let mut index: usize = 0;
        while index < n
            invariant
                0 <= index <= n,
                n == self@.len(),
                out@.len() == index,
                forall|j: int|
                    0 <= j < index && j < data@.len() ==> out@[j] == (
                    #[trigger] self@[j]).spec_set(data@[j]),
                forall|j: int|
                    data@.len() <= j < index ==> out@[j] == (#[trigger] self@[j]).value,
                forall|j: int| data@.len() <= j < index ==> (#[trigger] self@[j]).is_defined(),
            decreases n - index,
        {
            if index < data.len() {
                out.push(self.values[index].set(data[index]));
            } else {
                match self.values[index].defined() {
                    Some(value) => out.push(value),
                    None => {
                        proof {
                            assert(data@.len() <= index < self@.len());
                            assert(!self@[index as int].is_defined());
                        }
                        return Err(crate::Error::ReplaceNotDefined);
                    },
                }
            }
            index = index + 1;
        }
        while index < data.len()
            invariant
                n == self@.len(),
                n <= index <= data@.len() || (index == n && data@.len() <= n),
                out@.len() == index,
                forall|j: int|
                    0 <= j < index && j < data@.len() && j < n ==> out@[j] == (
                    #[trigger] self@[j]).spec_set(data@[j]),
                forall|j: int|
                    data@.len() <= j < index ==> out@[j] == (#[trigger] self@[j]).value,
                forall|j: int| data@.len() <= j < n ==> (#[trigger] self@[j]).is_defined(),
                forall|j: int| n <= j < index ==> out@[j] == data@[j],
            decreases data@.len() - index,
        {
            out.push(data[index]);
            index = index + 1;
        }
        proof {
            assert(out@ =~= replace_result(self@, data@));
        }
        Ok(out)
    }
}

impl Default for Pattern {
    fn default() -> (r: Self)
        ensures
            r@ == Seq::<MaskedByte>::empty(),
    {
        Self { values: Vec::new() }
    }
}

/// The text the units of a pattern list as: each unit's bit text followed by
/// one space, in order.
pub open spec fn units_text(p: Seq<MaskedByte>) -> Seq<char>
    decreases p.len(),
{
    if p.len() == 0 {
        Seq::empty()
    } else {
        units_text(p.drop_last()) + crate::masked_byte::unit_chars(p.last()) + seq![' ']
    }
}

impl Pattern {
    /// The pattern as text: its units' bit texts between brackets.
    pub fn to_display_string(&self) -> (r: String)
        ensures
            r@ == seq!['[', ' '] + units_text(self@) + seq![']'],
    {
        let mut r = String::new();
        proof {
            reveal_strlit("[ ");
        }
        r.append("[ ");
        proof {
            assert(r@ =~= seq!['[', ' '] + units_text(self@.take(0)));
        }
        let mut i: usize = 0;
        while i < self.values.len()
            invariant
                0 <= i <= self@.len(),
                r@ == seq!['[', ' '] + units_text(self@.take(i as int)),
            decreases self@.len() - i,
        {
            let s = self.values[i].to_bit_string();
            r.append(s.as_str());
            proof {
                reveal_strlit(" ");
            }
            r.append(" ");
            proof {
                assert(self@.take(i + 1).drop_last() =~= self@.take(i as int));
                assert(self@.take(i + 1).last() == self@[i as int]);
                assert(r@ =~= seq!['[', ' '] + units_text(self@.take(i + 1)));
            }
            i = i + 1;
        }
        proof {
            assert(self@.take(self@.len() as int) =~= self@);
            reveal_strlit("]");
        }
        r.append("]");
        proof {
            assert(r@ =~= seq!['[', ' '] + units_text(self@) + seq![']']);
        }
        r
    }
}

} // verus!
