//! The digit-string parser.
//!
//! A textual expansion is split on a single optional `_` separator into an
//! exact part and a repeating part.  Within a part, each character is one
//! digit when the base is below ten; otherwise digits are written in decimal
//! and separated by commas.  Empty tokens are skipped; a token that is not a
//! decimal number, or whose value reaches the base, is an error.
use vstd::prelude::*;

use vstd::arithmetic::power::pow;
use vstd::string::StrSliceExecFns;

use crate::arith::digits_value;

verus! {

/// `c` is one of the decimal digit characters `'0'..='9'`.
pub open spec fn is_digit_char(c: char) -> bool {
    48 <= c as u32 <= 57
}

/// Numeric value of a decimal digit character.
pub open spec fn char_val(c: char) -> int {
    c as u32 - 48
}

/// A single character read as a digit of the given base.
pub open spec fn char_ok(base: int, c: char) -> bool {
    is_digit_char(c) && char_val(c) < base
}

/// Every character of the token is a decimal digit (and there is at least one).
pub open spec fn token_numeric(t: Seq<char>) -> bool {
    t.len() > 0 && forall|i: int| 0 <= i < t.len() ==> is_digit_char(#[trigger] t[i])
}

/// The decimal value of a token, most significant character first.
pub open spec fn token_value(t: Seq<char>) -> int
    decreases t.len(),
{
    if t.len() == 0 {
        0
    } else {
        token_value(t.drop_last()) * 10 + char_val(t.last())
    }
}

/// The token denotes a digit of the given base.
pub open spec fn token_ok(base: int, t: Seq<char>) -> bool {
    token_numeric(t) && token_value(t) < base
}

/// How many `_` separators the input holds.
pub open spec fn sep_count(s: Seq<char>) -> nat
    decreases s.len(),
{
    if s.len() == 0 {
        0
    } else {
        sep_count(s.drop_last()) + if s.last() == '_' {
            1nat
        } else {
            0nat
        }
    }
}

/// Index of the first `_`, or the length when there is none.
pub open spec fn first_sep(s: Seq<char>) -> int
    decreases s.len(),
{
    if s.len() == 0 {
        0
    } else if s[0] == '_' {
        0
    } else {
        1 + first_sep(s.drop_first())
    }
}

/// The exact (pre-periodic) part: everything before the first separator.
pub open spec fn exact_part(s: Seq<char>) -> Seq<char> {
    s.take(first_sep(s))
}

/// The repeating part: everything after the first separator, empty when the
/// separator is absent.
pub open spec fn rep_part(s: Seq<char>) -> Seq<char> {
    if first_sep(s) == s.len() {
        Seq::empty()
    } else {
        s.skip(first_sep(s) + 1)
    }
}

pub proof fn lemma_first_sep(s: Seq<char>)
    ensures
        0 <= first_sep(s) <= s.len(),
        first_sep(s) < s.len() ==> s[first_sep(s)] == '_',
        forall|j: int| 0 <= j < first_sep(s) ==> s[j] != '_',
    decreases s.len(),
{
    if s.len() == 0 {
    } else if s[0] == '_' {
    } else {
        let rest = s.drop_first();
        lemma_first_sep(rest);
        assert forall|j: int| 0 <= j < first_sep(s) implies s[j] != '_' by {
            if j > 0 {
                assert(s[j] == rest[j - 1]);
            }
        }
    }
}

/// Comma-splitting of a part: always at least one token; a trailing comma
/// opens a new empty token.
pub open spec fn comma_tokens(p: Seq<char>) -> Seq<Seq<char>>
    decreases p.len(),
{
    if p.len() == 0 {
        seq![Seq::<char>::empty()]
    } else {
        let t = comma_tokens(p.drop_last());
        if p.last() == ',' {
            t.push(Seq::empty())
        } else {
            t.update(t.len() - 1, t.last().push(p.last()))
        }
    }
}

pub proof fn lemma_comma_tokens_nonempty(p: Seq<char>)
    ensures
        comma_tokens(p).len() >= 1,
    decreases p.len(),
{
    if p.len() > 0 {
        lemma_comma_tokens_nonempty(p.drop_last());
    }
}

/// Extending a part only extends or adds tokens: every completed token stays.
pub proof fn lemma_comma_tokens_extend(p: Seq<char>, q: Seq<char>)
    ensures
        comma_tokens(p + q).len() >= comma_tokens(p).len(),
        forall|j: int|
            0 <= j < comma_tokens(p).len() - 1 ==> comma_tokens(p + q)[j] == comma_tokens(p)[j],
    decreases q.len(),
{
    lemma_comma_tokens_nonempty(p);
    if q.len() == 0 {
        assert(p + q =~= p);
    } else {
        lemma_comma_tokens_extend(p, q.drop_last());
        lemma_comma_tokens_nonempty(p + q.drop_last());
        assert((p + q).drop_last() =~= p + q.drop_last());
        assert((p + q).len() > 0);
        let t = comma_tokens(p + q.drop_last());
        if (p + q).last() == ',' {
            assert(comma_tokens(p + q) == t.push(Seq::<char>::empty()));
        } else {
            assert(comma_tokens(p + q) == t.update(t.len() - 1, t.last().push((p + q).last())));
        }
    }
}

/// All digits of a token are decimal, so its value is not negative.
pub proof fn lemma_token_value_nonneg(t: Seq<char>)
    requires
        forall|i: int| 0 <= i < t.len() ==> is_digit_char(#[trigger] t[i]),
    ensures
        token_value(t) >= 0,
    decreases t.len(),
{
    if t.len() > 0 {
        lemma_token_value_nonneg(t.drop_last());
    }
}

/// The part is entirely made of digits of the base: each character when the
/// base is below ten, each nonempty comma-separated token otherwise.
pub open spec fn part_ok(base: int, p: Seq<char>) -> bool {
    if base < 10 {
        forall|i: int| 0 <= i < p.len() ==> char_ok(base, #[trigger] p[i])
    } else {
        forall|j: int|
            0 <= j < comma_tokens(p).len() ==> ((#[trigger] comma_tokens(p)[j]).len() > 0
                ==> token_ok(base, comma_tokens(p)[j]))
    }
}

/// `t` is one of the part's tokens and is not a digit of the base.
pub open spec fn offending_token(base: int, p: Seq<char>, t: Seq<char>) -> bool {
    if base < 10 {
        exists|i: int| 0 <= i < p.len() && t == seq![#[trigger] p[i]] && !char_ok(base, p[i])
    } else {
        exists|j: int|
            0 <= j < comma_tokens(p).len() && #[trigger] comma_tokens(p)[j] == t && t.len() > 0
                && !token_ok(base, t)
    }
}

/// The digit values of a token sequence, skipping the empty tokens.
pub open spec fn toks_digits(ts: Seq<Seq<char>>) -> Seq<u8>
    decreases ts.len(),
{
    if ts.len() == 0 {
        Seq::empty()
    } else {
        toks_digits(ts.drop_last()) + if ts.last().len() > 0 {
            seq![token_value(ts.last()) as u8]
        } else {
            Seq::<u8>::empty()
        }
    }
}

/// The digit values of a part read one character per digit.
pub open spec fn small_digits(p: Seq<char>) -> Seq<u8>
    decreases p.len(),
{
    if p.len() == 0 {
        Seq::empty()
    } else {
        small_digits(p.drop_last()).push(char_val(p.last()) as u8)
    }
}

/// The digit sequence a part denotes.
pub open spec fn part_digits(base: int, p: Seq<char>) -> Seq<u8> {
    if base < 10 {
        small_digits(p)
    } else {
        toks_digits(comma_tokens(p))
    }
}

/// Why an input failed to parse.
#[derive(Debug)]
pub enum ParseError {
    /// The input and then the second separator make the syntax invalid.
    TooManySeparators(String),
    /// The input, and the token within it that is not a digit of the base.
    InvalidDigit(String, String),
}

/// The characters of a string, for verified index-based scanning.
fn chars_of(s: &str) -> (v: Vec<char>)
    ensures
        v@ == s@,
{
    let n = s.unicode_len();
    let mut v: Vec<char> = Vec::new();
    let mut i: usize = 0;
    while i < n
        invariant
            0 <= i <= n,
            n == s@.len(),
            v@ == s@.take(i as int),
        decreases n - i,
    {
        let c = s.get_char(i);
        v.push(c);
        proof {
            assert(s@.take(i + 1) =~= s@.take(i as int).push(s@[i as int]));
        }
        i = i + 1;
    }
    proof {
        assert(s@.take(n as int) =~= s@);
    }
    v
}

/// One digit per character (base below ten).
fn parse_part_chars(base: u8, cs: &Vec<char>, start: usize, end: usize) -> (r: Result<
    Vec<u8>,
    (usize, usize),
>)
    requires
        2 <= base < 10,
        start <= end <= cs@.len(),
    ensures
        match r {
            Ok(v) => {
                &&& part_ok(base as int, cs@.subrange(start as int, end as int))
                &&& v@ == part_digits(base as int, cs@.subrange(start as int, end as int))
                &&& forall|i: int| 0 <= i < v@.len() ==> v@[i] < base
                &&& v@.len() <= end - start
            },
            Err((a, b)) => {
                &&& start <= a && a < b && b <= end
                &&& offending_token(
                    base as int,
                    cs@.subrange(start as int, end as int),
                    cs@.subrange(a as int, b as int),
                )
            },
        },
{
    let ghost sub = cs@.subrange(start as int, end as int);
    let mut out: Vec<u8> = Vec::new();
    let mut i: usize = start;
    while i < end
        invariant
            2 <= base < 10,
            start <= i <= end <= cs@.len(),
            sub == cs@.subrange(start as int, end as int),
            out@ == small_digits(sub.take(i - start)),
            out@.len() == i - start,
            forall|j: int| 0 <= j < i - start ==> char_ok(base as int, #[trigger] sub[j]),
            forall|j: int| 0 <= j < out@.len() ==> out@[j] < base,
        decreases end - i,
    {
        let c = cs[i];
        proof {
            assert(sub[i - start] == cs@[i as int]);
        }
        let u = c as u32;
        if u < 48 || u > 57 || (u - 48) >= base as u32 {
            proof {
                assert(cs@.subrange(i as int, i + 1) =~= seq![sub[i - start]]);
                assert(!char_ok(base as int, sub[i - start]));
            }
            return Err((i, i + 1));
        }
        let d: u8 = (u - 48) as u8;
        out.push(d);
        proof {
            let k = i - start;
            assert(sub.take(k + 1).drop_last() =~= sub.take(k));
            assert(sub.take(k + 1).last() == sub[k]);
            assert(small_digits(sub.take(k + 1)) == small_digits(sub.take(k)).push(
                char_val(sub[k]) as u8,
            ));
        }
        i = i + 1;
    }
    proof {
        assert(sub.take(end - start) =~= sub);
    }
    Ok(out)
}

/// Comma-separated decimal digit tokens (base ten or above).
fn parse_part_tokens(base: u8, cs: &Vec<char>, start: usize, end: usize) -> (r: Result<
    Vec<u8>,
    (usize, usize),
>)
    requires
        10 <= base,
        start <= end <= cs@.len(),
    ensures
        match r {
            Ok(v) => {
                &&& part_ok(base as int, cs@.subrange(start as int, end as int))
                &&& v@ == part_digits(base as int, cs@.subrange(start as int, end as int))
                &&& forall|i: int| 0 <= i < v@.len() ==> v@[i] < base
                &&& v@.len() <= end - start
            },
            Err((a, b)) => {
                &&& start <= a && a < b && b <= end
                &&& offending_token(
                    base as int,
                    cs@.subrange(start as int, end as int),
                    cs@.subrange(a as int, b as int),
                )
            },
        },
{
    let ghost sub = cs@.subrange(start as int, end as int);
    let mut out: Vec<u8> = Vec::new();
    let mut tok_start: usize = start;
    let mut all_digits: bool = true;
    let mut over: bool = false;
    let mut acc: u16 = 0;
    let mut i: usize = start;
    proof {
        assert(sub.take(0) =~= Seq::<char>::empty());
        assert(cs@.subrange(start as int, start as int) =~= Seq::<char>::empty());
    }
    while i < end
        invariant
            10 <= base,
            start <= tok_start <= i <= end <= cs@.len(),
            sub == cs@.subrange(start as int, end as int),
            comma_tokens(sub.take(i - start)).len() >= 1,
            comma_tokens(sub.take(i - start)).last() == cs@.subrange(tok_start as int, i as int),
            out@ == toks_digits(comma_tokens(sub.take(i - start)).drop_last()),
            forall|j: int|
                0 <= j < comma_tokens(sub.take(i - start)).len() - 1 ==> ((#[trigger] comma_tokens(
                    sub.take(i - start),
                )[j]).len() > 0 ==> token_ok(base as int, comma_tokens(sub.take(i - start))[j])),
            forall|j: int| 0 <= j < out@.len() ==> out@[j] < base,
            out@.len() <= tok_start - start,
            all_digits == (forall|q: int|
                tok_start <= q < i ==> is_digit_char(#[trigger] cs@[q])),
            all_digits && !over ==> acc as int == token_value(
                cs@.subrange(tok_start as int, i as int),
            ) && acc < base as u16,
            all_digits && over ==> token_value(cs@.subrange(tok_start as int, i as int))
                >= base as int,
        decreases end - i,
    {
        let ghost k = i - start;
        let ghost ct = comma_tokens(sub.take(k));
        let ghost cur = cs@.subrange(tok_start as int, i as int);
        let c = cs[i];
        proof {
            assert(sub[k] == cs@[i as int]);
            assert(sub.take(k + 1).drop_last() =~= sub.take(k));
            assert(sub.take(k + 1).last() == sub[k]);
        }
        if c == ',' {
            // finalize the current token
            let ghost ct2 = comma_tokens(sub.take(k + 1));
            proof {
                assert(ct2 == ct.push(Seq::<char>::empty()));
                assert(ct2.drop_last() =~= ct);
                assert(cs@.subrange(i + 1, i + 1) =~= Seq::<char>::empty());
            }
            if tok_start < i {
                // a nonempty token ends here
                if !all_digits || over || acc >= base as u16 {
                    proof {
                        if !all_digits {
                            let q = choose|q: int|
                                tok_start <= q < i && !is_digit_char(#[trigger] cs@[q]);
                            assert(cur[q - tok_start] == cs@[q]);
                            assert(!token_numeric(cur));
                        }
                        assert(!token_ok(base as int, cur));
                        lemma_close_token_offends(sub, cs@, start, tok_start, i, end, base);
                    }
                    return Err((tok_start, i));
                }
                let d: u8 = acc as u8;
                out.push(d);
                proof {
                    assert(token_ok(base as int, cur));
                    assert(toks_digits(ct) == toks_digits(ct.drop_last()) + seq![
                        token_value(cur) as u8,
                    ]);
                }
            } else {
                proof {
                    assert(cur.len() == 0);
                    assert(toks_digits(ct) == toks_digits(ct.drop_last()));
                }
            }
            tok_start = i + 1;
            all_digits = true;
            over = false;
            acc = 0;
        } else {
            // the current token grows by one character
            let ghost ct2 = comma_tokens(sub.take(k + 1));
            proof {
                assert(ct2 == ct.update(ct.len() - 1, ct.last().push(sub[k])));
                assert(ct2.drop_last() =~= ct.drop_last());
                assert(ct2.last() == cur.push(cs@[i as int]));
                assert(cur.push(cs@[i as int]) =~= cs@.subrange(tok_start as int, i + 1));
                assert(cur.push(cs@[i as int]).drop_last() =~= cur);
                assert(token_value(cur.push(cs@[i as int])) == token_value(cur) * 10 + char_val(
                    cs@[i as int],
                ));
            }
            let u = c as u32;
            if u < 48 || u > 57 {
                all_digits = false;
            } else if all_digits && !over {
                let d: u16 = (u - 48) as u16;
                let next = acc * 10 + d;
                if next >= base as u16 {
                    over = true;
                    proof {
                        lemma_token_value_nonneg(cur);
                    }
                } else {
                    acc = next;
                }
            } else if all_digits && over {
                proof {
                    lemma_token_value_nonneg(cur);
                    assert(token_value(cur) * 10 >= token_value(cur));
                }
            }
        }
        i = i + 1;
    }
    // finalize the last token
    let ghost ct = comma_tokens(sub.take(end - start));
    let ghost cur = cs@.subrange(tok_start as int, end as int);
    proof {
        assert(sub.take(end - start) =~= sub);
    }
    if tok_start < end {
        if !all_digits || over || acc >= base as u16 {
            proof {
                if !all_digits {
                    let q = choose|q: int|
                        tok_start <= q < end && !is_digit_char(#[trigger] cs@[q]);
                    assert(cur[q - tok_start] == cs@[q]);
                    assert(!token_numeric(cur));
                }
                assert(!token_ok(base as int, cur));
                lemma_last_token_offends(sub, cs@, start, tok_start, end, base);
            }
            return Err((tok_start, end));
        }
        let d: u8 = acc as u8;
        out.push(d);
        proof {
            assert(token_ok(base as int, cur));
            assert(toks_digits(ct) == toks_digits(ct.drop_last()) + seq![token_value(cur) as u8]);
        }
    } else {
        proof {
            assert(cur.len() == 0);
            assert(toks_digits(ct) == toks_digits(ct.drop_last()));
        }
    }
    proof {
        assert forall|j: int|
            0 <= j < ct.len() && (#[trigger] ct[j]).len() > 0 implies token_ok(base as int, ct[j]) by {
            if j == ct.len() - 1 {
                assert(ct.last() == cur);
            }
        }
    }
    Ok(out)
}

/// The token closed just before a comma is a token of the whole part.
proof fn lemma_close_token_offends(
    sub: Seq<char>,
    s: Seq<char>,
    start: usize,
    tok_start: usize,
    i: usize,
    end: usize,
    base: u8,
)
    requires
        start <= tok_start < i < end <= s.len(),
        10 <= base,
        sub == s.subrange(start as int, end as int),
        comma_tokens(sub.take(i - start)).len() >= 1,
        comma_tokens(sub.take(i - start)).last() == s.subrange(tok_start as int, i as int),
        sub[i - start] == ',',
        !token_ok(base as int, s.subrange(tok_start as int, i as int)),
    ensures
        offending_token(base as int, sub, s.subrange(tok_start as int, i as int)),
{
    let k = i - start;
    let ct = comma_tokens(sub.take(k));
    let ct2 = comma_tokens(sub.take(k + 1));
    assert(sub.take(k + 1).drop_last() =~= sub.take(k));
    assert(sub.take(k + 1).last() == sub[k]);
    assert(ct2 == ct.push(Seq::<char>::empty()));
    assert(ct2[ct2.len() - 2] == s.subrange(tok_start as int, i as int));
    assert(sub.take(k + 1) + sub.skip(k + 1) =~= sub);
    lemma_comma_tokens_extend(sub.take(k + 1), sub.skip(k + 1));
    assert(comma_tokens(sub)[ct2.len() - 2] == s.subrange(tok_start as int, i as int));
    assert(s.subrange(tok_start as int, i as int).len() > 0);
}

/// The token at the very end of a part is its last token.
proof fn lemma_last_token_offends(
    sub: Seq<char>,
    s: Seq<char>,
    start: usize,
    tok_start: usize,
    end: usize,
    base: u8,
)
    requires
        start <= tok_start < end <= s.len(),
        10 <= base,
        sub == s.subrange(start as int, end as int),
        comma_tokens(sub).len() >= 1,
        comma_tokens(sub).last() == s.subrange(tok_start as int, end as int),
        !token_ok(base as int, s.subrange(tok_start as int, end as int)),
    ensures
        offending_token(base as int, sub, s.subrange(tok_start as int, end as int)),
{
    let ct = comma_tokens(sub);
    assert(ct[ct.len() - 1] == s.subrange(tok_start as int, end as int));
    assert(s.subrange(tok_start as int, end as int).len() > 0);
}

/// Splits the input on the `_` separator and tokenizes both parts into
/// digits of the base.
pub fn parse_digit_parts(base: u8, s: &str) -> (r: Result<(Vec<u8>, Vec<u8>), ParseError>)
    requires
        2 <= base,
    ensures
        match r {
            Ok(parts) => {
                &&& sep_count(s@) <= 1
                &&& part_ok(base as int, exact_part(s@))
                &&& part_ok(base as int, rep_part(s@))
                &&& parts.0@ == part_digits(base as int, exact_part(s@))
                &&& parts.1@ == part_digits(base as int, rep_part(s@))
                &&& forall|i: int| 0 <= i < parts.0@.len() ==> parts.0@[i] < base
                &&& forall|i: int| 0 <= i < parts.1@.len() ==> parts.1@[i] < base
                &&& parts.0@.len() + parts.1@.len() <= s@.len()
            },
            Err(ParseError::TooManySeparators(inp)) => inp@ == s@ && sep_count(s@) >= 2,
            Err(ParseError::InvalidDigit(inp, tok)) => {
                &&& inp@ == s@
                &&& sep_count(s@) <= 1
                &&& (offending_token(base as int, exact_part(s@), tok@) || offending_token(
                    base as int,
                    rep_part(s@),
                    tok@,
                ))
                &&& !(part_ok(base as int, exact_part(s@)) && part_ok(base as int, rep_part(s@)))
            },
        },
{
    let cs = chars_of(s);
    let n = cs.len();
    let mut cnt: usize = 0;
    let mut f: usize = n;
    let mut i: usize = 0;
    proof {
        assert(cs@.take(0) =~= Seq::<char>::empty());
    }
    while i < n
        invariant
            0 <= i <= n,
            n == cs@.len(),
            cs@ == s@,
            cnt == sep_count(cs@.take(i as int)),
            cnt <= i,
            f == n || (f < i && cs@[f as int] == '_'),
            f == n ==> forall|j: int| 0 <= j < i ==> cs@[j] != '_',
            f < n ==> forall|j: int| 0 <= j < f ==> cs@[j] != '_',
        decreases n - i,
    {
        proof {
            assert(cs@.take(i + 1).drop_last() =~= cs@.take(i as int));
            assert(cs@.take(i + 1).last() == cs@[i as int]);
        }
        if cs[i] == '_' {
            cnt = cnt + 1;
            if f == n {
                f = i;
            }
        }
        i = i + 1;
    }
    proof {
        assert(cs@.take(n as int) =~= cs@);
        lemma_first_sep(s@);
        if f == n {
            assert(first_sep(s@) == n);
        } else {
            assert(first_sep(s@) == f);
        }
    }
    if cnt > 1 {
        return Err(ParseError::TooManySeparators(s.to_owned()));
    }
    proof {
        assert(exact_part(s@) =~= cs@.subrange(0, f as int));
    }
    let exact = match parse_part(base, &cs, 0, f) {
        Ok(v) => v,
        Err((a, b)) => {
            let tok = s.substring_char(a, b).to_owned();
            return Err(ParseError::InvalidDigit(s.to_owned(), tok));
        },
    };
    if f == n {
        let rep: Vec<u8> = Vec::new();
        proof {
            assert(rep_part(s@) =~= Seq::<char>::empty());
            lemma_empty_part(base as int);
        }
        Ok((exact, rep))
    } else {
        proof {
            assert(rep_part(s@) =~= cs@.subrange(f + 1, n as int));
        }
        let rep = match parse_part(base, &cs, f + 1, n) {
            Ok(v) => v,
            Err((a, b)) => {
                let tok = s.substring_char(a, b).to_owned();
                return Err(ParseError::InvalidDigit(s.to_owned(), tok));
            },
        };
        Ok((exact, rep))
    }
}

/// An empty part has no digits and nothing wrong in it.
proof fn lemma_empty_part(base: int)
    ensures
        part_ok(base, Seq::<char>::empty()),
        part_digits(base, Seq::<char>::empty()) == Seq::<u8>::empty(),
{
    let e = Seq::<char>::empty();
    if base < 10 {
    } else {
        let ct = comma_tokens(e);
        assert(ct =~= seq![Seq::<char>::empty()]);
        assert(ct.last().len() == 0);
        assert(ct.drop_last() =~= Seq::<Seq<char>>::empty());
        assert(toks_digits(ct.drop_last()) =~= Seq::<u8>::empty());
        assert(toks_digits(ct) =~= toks_digits(ct.drop_last()) + Seq::<u8>::empty());
        assert(toks_digits(ct) =~= Seq::<u8>::empty());
    }
    assert(small_digits(e) =~= Seq::<u8>::empty());
}

/// Tokenizes one part, routed by the base.
fn parse_part(base: u8, cs: &Vec<char>, start: usize, end: usize) -> (r: Result<
    Vec<u8>,
    (usize, usize),
>)
    requires
        2 <= base,
        start <= end <= cs@.len(),
    ensures
        match r {
            Ok(v) => {
                &&& part_ok(base as int, cs@.subrange(start as int, end as int))
                &&& v@ == part_digits(base as int, cs@.subrange(start as int, end as int))
                &&& forall|i: int| 0 <= i < v@.len() ==> v@[i] < base
                &&& v@.len() <= end - start
            },
            Err((a, b)) => {
                &&& start <= a && a < b && b <= end
                &&& offending_token(
                    base as int,
                    cs@.subrange(start as int, end as int),
                    cs@.subrange(a as int, b as int),
                )
            },
        },
{
    if base < 10 {
        parse_part_chars(base, cs, start, end)
    } else {
        parse_part_tokens(base, cs, start, end)
    }
}

/// Reads a digit sequence, most significant digit first, as an integer.
pub fn value_from_digits(base: u8, digits: &[u8]) -> (r: u128)
    requires
        2 <= base,
        forall|i: int| 0 <= i < digits@.len() ==> digits@[i] < base,
        pow(base as int, digits@.len() as nat) <= u128::MAX as int + 1,
    ensures
        r as int == digits_value(base as int, digits@),
        (r as int) < pow(base as int, digits@.len() as nat),
{
    let n = digits.len();
    let mut acc: u128 = 0;
    let mut i: usize = 0;
    proof {
        vstd::arithmetic::power::lemma_pow0(base as int);
    }
    while i < n
        invariant
            0 <= i <= n,
            n == digits@.len(),
            2 <= base,
            forall|j: int| 0 <= j < digits@.len() ==> digits@[j] < base,
            pow(base as int, n as nat) <= u128::MAX as int + 1,
            acc as int == digits_value(base as int, digits@.take(i as int)),
            (acc as int) < pow(base as int, i as nat),
        decreases n - i,
    {
        proof {
            vstd::arithmetic::power::lemma_pow_adds(base as int, i as nat, 1);
            vstd::arithmetic::power::lemma_pow1(base as int);
            vstd::arithmetic::power::lemma_pow_increases(base as nat, (i + 1) as nat, n as nat);
            let a = acc as int;
            let p = pow(base as int, i as nat);
            let d = digits@[i as int] as int;
            assert(a * base + d < p * base) by (nonlinear_arith)
                requires
                    0 <= a < p,
                    2 <= base,
                    0 <= d < base,
            ;
            assert(digits@.take(i + 1).drop_last() =~= digits@.take(i as int));
            assert(digits@.take(i + 1).last() == digits@[i as int]);
        }
        acc = acc * (base as u128) + (digits[i] as u128);
        i = i + 1;
    }
    proof {
        assert(digits@.take(n as int) =~= digits@);
    }
    acc
}

} // verus!
