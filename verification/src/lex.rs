//! The lexical layer: runs of bytes of one class, fixed tokens, unsigned
//! integer literals and identifiers.

use vstd::prelude::*;
use vstd::slice::*;

use crate::error::ParseError;

verus! {

/// Space, tab, carriage return or line feed.
pub open spec fn is_space(b: u8) -> bool {
    b == 0x20 || b == 0x09 || b == 0x0d || b == 0x0a
}

/// An ASCII letter.
pub open spec fn is_alpha(b: u8) -> bool {
    (0x41 <= b <= 0x5a) || (0x61 <= b <= 0x7a)
}

/// An ASCII decimal digit.
pub open spec fn is_digit(b: u8) -> bool {
    0x30 <= b <= 0x39
}

/// An ASCII letter or decimal digit.
pub open spec fn is_alphanum(b: u8) -> bool {
    is_alpha(b) || is_digit(b)
}

/// A byte that may continue an identifier: a letter, a digit or `_`.
pub open spec fn is_ident_byte(b: u8) -> bool {
    is_alphanum(b) || b == 0x5f
}

/// How many bytes at the front of `s` satisfy `p`, up to the first that does
/// not.
#[verifier::opaque]
pub open spec fn run_len(s: Seq<u8>, p: spec_fn(u8) -> bool) -> nat
    decreases s.len(),
{
    if s.len() > 0 && p(s[0]) {
        1 + run_len(s.skip(1), p)
    } else {
        0
    }
}

/// The number that the decimal digits `digits` spell.
#[verifier::opaque]
pub open spec fn decimal(digits: Seq<u8>) -> nat
    decreases digits.len(),
{
    if digits.len() == 0 {
        0
    } else {
        10 * decimal(digits.drop_last()) + (digits.last() - 0x30) as nat
    }
}

/// The length of the white space at the front of `s`.
pub open spec fn space_run(s: Seq<u8>) -> nat {
    run_len(s, |b: u8| is_space(b))
}

/// The length of the letters at the front of `s`.
pub open spec fn alpha_run(s: Seq<u8>) -> nat {
    run_len(s, |b: u8| is_alpha(b))
}

/// The length of the letters and digits at the front of `s`.
pub open spec fn alphanum_run(s: Seq<u8>) -> nat {
    run_len(s, |b: u8| is_alphanum(b))
}

/// The length of the digits at the front of `s`.
pub open spec fn digit_run(s: Seq<u8>) -> nat {
    run_len(s, |b: u8| is_digit(b))
}

/// `s` without its first `n` bytes; empty if it has fewer.
pub open spec fn rest(s: Seq<u8>, n: nat) -> Seq<u8> {
    if n <= s.len() {
        s.skip(n as int)
    } else {
        Seq::empty()
    }
}

/// The bytes of `s` from offset `p` on start with those of `t`.
#[verifier::opaque]
pub open spec fn starts_with(s: Seq<u8>, p: nat, t: Seq<u8>) -> bool {
    t.is_prefix_of(rest(s, p))
}

/// The token `t` stands in `s` at offset `p`.
pub open spec fn at(s: Seq<u8>, p: nat, t: Seq<u8>) -> bool {
    p + t.len() <= s.len() && starts_with(s, p, t)
}

/// The offset in `s` of the first byte at or after `p` that is no white
/// space.
pub open spec fn ws(s: Seq<u8>, p: nat) -> nat {
    p + space_run(rest(s, p))
}

/// The length of the identifier at the front of `s`: a letter or `_`, then
/// letters, digits and `_` as far as they go. `None` if `s` starts with
/// neither a letter nor `_`.
pub open spec fn ident_len(s: Seq<u8>) -> Option<nat> {
    if s.len() > 0 && (is_alpha(s[0]) || s[0] == 0x5f) {
        Some(1 + run_len(s.skip(1), |b: u8| is_ident_byte(b)))
    } else {
        None
    }
}

/// The unsigned literal at the front of `s`: its value and its length. `None`
/// if `s` does not start with a digit, or if the digits spell a number above
/// `u128::MAX`.
pub open spec fn uint_literal(s: Seq<u8>) -> Option<(u128, nat)> {
    let n = digit_run(s);
    if n > 0 && decimal(s.take(n as int)) <= u128::MAX {
        Some((decimal(s.take(n as int)) as u128, n))
    } else {
        None
    }
}

/// Dropping `a` bytes and then `b` is dropping `a + b`.
pub proof fn lemma_rest_rest(s: Seq<u8>, a: nat, b: nat)
    ensures
        rest(rest(s, a), b) == rest(s, a + b),
{
    if a + b <= s.len() {
        assert(s.skip(a as int).skip(b as int) =~= s.skip((a + b) as int));
    } else if a <= s.len() {
        assert(rest(s.skip(a as int), b) =~= Seq::<u8>::empty());
    } else {
        assert(rest(Seq::<u8>::empty(), b) =~= Seq::<u8>::empty());
    }
}

/// Dropping nothing changes nothing.
pub proof fn lemma_rest_zero(s: Seq<u8>)
    ensures
        rest(s, 0) == s,
{
    assert(s.skip(0) =~= s);
}

/// What `run_len` counts: the run lies inside `s`, every byte of it satisfies
/// `p`, and the byte after it, if there is one, does not.
pub proof fn lemma_run_len(s: Seq<u8>, p: spec_fn(u8) -> bool)
    ensures
        run_len(s, p) <= s.len(),
        forall|i: int| 0 <= i < run_len(s, p) ==> p(#[trigger] s[i]),
        run_len(s, p) < s.len() ==> !p(s[run_len(s, p) as int]),
    decreases s.len(),
{
    reveal(run_len);
    if s.len() > 0 && p(s[0]) {
        lemma_run_len(s.skip(1), p);
        assert forall|i: int| 0 <= i < run_len(s, p) implies p(#[trigger] s[i]) by {
            if i > 0 {
                assert(s[i] == s.skip(1)[i - 1]);
            }
        }
    }
}

/// A run that starts with `a` bytes that satisfy `p` is `a` bytes longer than
/// the run after them.
pub proof fn lemma_run_len_split(s: Seq<u8>, p: spec_fn(u8) -> bool, a: nat)
    requires
        a <= s.len(),
        forall|i: int| 0 <= i < a ==> p(#[trigger] s[i]),
    ensures
        run_len(s, p) == a + run_len(s.skip(a as int), p),
    decreases a,
{
    reveal(run_len);
    if a == 0 {
        assert(s.skip(0) =~= s);
    } else {
        assert(p(s[0]));
        assert forall|i: int| 0 <= i < a - 1 implies p(#[trigger] s.skip(1)[i]) by {
            assert(s.skip(1)[i] == s[i + 1]);
        }
        lemma_run_len_split(s.skip(1), p, (a - 1) as nat);
        assert(s.skip(1).skip(a - 1) =~= s.skip(a as int));
    }
}

/// nom's `multispace0`: splits `input` after its leading white space (spaces,
/// tabs, carriage returns, line feeds). It never fails. The result is what is
/// left, then the white space.
#[verifier::external_body]
fn multispace0<'a>(input: &'a [u8]) -> (r: Option<(&'a [u8], &'a [u8])>)
    ensures
        r is Some,
        r.unwrap().0@ == input@.skip(space_run(input@) as int),
        r.unwrap().1@ == input@.take(space_run(input@) as int),
{
    nom::character::complete::multispace0::<&[u8], nom::error::Error<&[u8]>>(input).ok()
}

/// nom's `multispace1`: as `multispace0`, but fails where `input` does not
/// start with white space.
#[verifier::external_body]
fn multispace1<'a>(input: &'a [u8]) -> (r: Option<(&'a [u8], &'a [u8])>)
    ensures
        match r {
            Some(p) => space_run(input@) > 0 && p.0@ == input@.skip(space_run(input@) as int)
                && p.1@ == input@.take(space_run(input@) as int),
            None => space_run(input@) == 0,
        },
{
    nom::character::complete::multispace1::<&[u8], nom::error::Error<&[u8]>>(input).ok()
}

/// nom's `alpha1`: splits `input` after its leading ASCII letters, and fails
/// where it starts with none. The result is what is left, then the letters.
#[verifier::external_body]
fn alpha1<'a>(input: &'a [u8]) -> (r: Option<(&'a [u8], &'a [u8])>)
    ensures
        match r {
            Some(p) => alpha_run(input@) > 0 && p.0@ == input@.skip(alpha_run(input@) as int)
                && p.1@ == input@.take(alpha_run(input@) as int),
            None => alpha_run(input@) == 0,
        },
{
    nom::character::complete::alpha1::<&[u8], nom::error::Error<&[u8]>>(input).ok()
}

/// nom's `alphanumeric1`: splits `input` after its leading ASCII letters and
/// digits, and fails where it starts with none. The result is what is left,
/// then the letters and digits.
#[verifier::external_body]
fn alphanumeric1<'a>(input: &'a [u8]) -> (r: Option<(&'a [u8], &'a [u8])>)
    ensures
        match r {
            Some(p) => alphanum_run(input@) > 0 && p.0@ == input@.skip(
                alphanum_run(input@) as int,
            ) && p.1@ == input@.take(alphanum_run(input@) as int),
            None => alphanum_run(input@) == 0,
        },
{
    nom::character::complete::alphanumeric1::<&[u8], nom::error::Error<&[u8]>>(input).ok()
}

/// nom's `tag`: splits `input` after `token` where `input` starts with it,
/// and fails where it does not. The result is what is left, then the token
/// as it stands in `input`.
#[verifier::external_body]
fn tag<'a>(token: &[u8], input: &'a [u8]) -> (r: Option<(&'a [u8], &'a [u8])>)
    ensures
        match r {
            Some(p) => token@.is_prefix_of(input@) && p.0@ == input@.skip(token@.len() as int)
                && p.1@ == token@,
            None => !token@.is_prefix_of(input@),
        },
{
    nom::bytes::complete::tag::<&[u8], &[u8], nom::error::Error<&[u8]>>(token)(input).ok()
}

/// nom's `u128`: reads the decimal digits at the front of `input` as a
/// number. It fails where `input` starts with no digit, and where the digits
/// spell a number above `u128::MAX`. The result is what is left after the
/// digits, then the number.
#[verifier::external_body]
fn uint128<'a>(input: &'a [u8]) -> (r: Option<(&'a [u8], u128)>)
    ensures
        match r {
            Some(p) => uint_literal(input@) == Some((p.1, digit_run(input@))) && p.0@
                == input@.skip(digit_run(input@) as int),
            None => uint_literal(input@) is None,
        },
{
    nom::character::complete::u128::<&[u8], nom::error::Error<&[u8]>>(input).ok()
}

/// Drops the white space at the front of `cur`, which is `s` from offset `p`
/// on.
pub(crate) fn skip_ws<'a>(cur: &'a [u8], Ghost(s): Ghost<Seq<u8>>, Ghost(p): Ghost<nat>) -> (out:
    &'a [u8])
    requires
        p <= s.len(),
        cur@ == rest(s, p),
    ensures
        out@ == rest(s, ws(s, p)),
        p <= ws(s, p) <= s.len(),
{
    proof {
        lemma_run_len(cur@, |b: u8| is_space(b));
        lemma_rest_rest(s, p, space_run(cur@));
    }
    match multispace0(cur) {
        Some((out, _)) => out,
        None => cur,
    }
}

/// Drops the white space at the front of `cur`, which is `s` from offset `p`
/// on, if there is any.
pub(crate) fn skip_ws1<'a>(cur: &'a [u8], Ghost(s): Ghost<Seq<u8>>, Ghost(p): Ghost<nat>) -> (r:
    Option<&'a [u8]>)
    requires
        p <= s.len(),
        cur@ == rest(s, p),
    ensures
        match r {
            Some(out) => space_run(rest(s, p)) > 0 && out@ == rest(s, ws(s, p)),
            None => space_run(rest(s, p)) == 0,
        },
        p <= ws(s, p) <= s.len(),
{
    proof {
        lemma_run_len(cur@, |b: u8| is_space(b));
        lemma_rest_rest(s, p, space_run(cur@));
    }
    match multispace1(cur) {
        Some((out, _)) => Some(out),
        None => None,
    }
}

/// Drops the token `t` from the front of `cur`, which is `s` from offset `p`
/// on, if `cur` starts with it.
pub(crate) fn eat<'a, const N: usize>(
    t: &[u8; N],
    cur: &'a [u8],
    Ghost(s): Ghost<Seq<u8>>,
    Ghost(p): Ghost<nat>,
) -> (r: Option<&'a [u8]>)
    requires
        p <= s.len(),
        cur@ == rest(s, p),
    ensures
        match r {
            Some(out) => at(s, p, t@) && out@ == rest(s, p + N as nat) && p + N <= s.len(),
            None => !at(s, p, t@),
        },
{
    proof {
        reveal(starts_with);
        lemma_rest_rest(s, p, N as nat);
    }
    match tag(t.as_slice(), cur) {
        Some((out, _)) => Some(out),
        None => None,
    }
}

/// Drops the byte `c` from the front of `cur`, which is `s` from offset `p`
/// on, if `cur` starts with it.
pub(crate) fn eat1<'a>(c: u8, cur: &'a [u8], Ghost(s): Ghost<Seq<u8>>, Ghost(p): Ghost<nat>) -> (r:
    Option<&'a [u8]>)
    requires
        p <= s.len(),
        cur@ == rest(s, p),
    ensures
        match r {
            Some(out) => at(s, p, seq![c]) && out@ == rest(s, p + 1) && p + 1 <= s.len(),
            None => !at(s, p, seq![c]),
        },
{
    let t = [c];
    assert(t@ =~= seq![c]);
    eat(&t, cur, Ghost(s), Ghost(p))
}

/// Drops the bytes `a`, `b` from the front of `cur`, which is `s` from offset
/// `p` on, if `cur` starts with them.
pub(crate) fn eat2<'a>(
    a: u8,
    b: u8,
    cur: &'a [u8],
    Ghost(s): Ghost<Seq<u8>>,
    Ghost(p): Ghost<nat>,
) -> (r: Option<&'a [u8]>)
    requires
        p <= s.len(),
        cur@ == rest(s, p),
    ensures
        match r {
            Some(out) => at(s, p, seq![a, b]) && out@ == rest(s, p + 2) && p + 2 <= s.len(),
            None => !at(s, p, seq![a, b]),
        },
{
    let t = [a, b];
    assert(t@ =~= seq![a, b]);
    eat(&t, cur, Ghost(s), Ghost(p))
}

/// Reads an identifier from the front of `input`. The result is what is left
/// after it, then the identifier.
pub fn identifier<'a>(input: &'a [u8]) -> (r: Result<(&'a [u8], &'a [u8]), ParseError<'a>>)
    ensures
        match (r, ident_len(input@)) {
            (Ok((out, name)), Some(n)) => name@ == input@.take(n as int) && out@ == rest(input@, n)
                && n <= input@.len(),
            (Err(e), None) => e.rest@ == input@,
            _ => false,
        },
{
    let ghost s = input@;
    let ghost p = |b: u8| is_ident_byte(b);
    proof {
        reveal(run_len);
        reveal(starts_with);
        lemma_rest_zero(s);
    }
    let mut cur: &'a [u8] = match eat1('_' as u8, input, Ghost(s), Ghost(0)) {
        Some(out) => out,
        None => match alpha1(input) {
            Some((out, _)) => {
                proof {
                    lemma_run_len(s, |b: u8| is_alpha(b));
                }
                out
            },
            None => {
                proof {
                    lemma_run_len(s, |b: u8| is_alpha(b));
                }
                return Err(ParseError { rest: input });
            },
        },
    };
    let ghost mut k: nat = (s.len() - cur@.len()) as nat;
    proof {
        assert forall|i: int| 0 <= i < k - 1 implies p(#[trigger] s.skip(1)[i]) by {
            assert(s.skip(1)[i] == s[i + 1]);
        }
        lemma_run_len_split(s.skip(1), p, (k - 1) as nat);
        assert(s.skip(1).skip(k - 1) =~= s.skip(k as int));
    }
    loop
        invariant
            s == input@,
            p == |b: u8| is_ident_byte(b),
            1 <= k <= s.len(),
            cur@ == s.skip(k as int),
            s.len() > 0 && (is_alpha(s[0]) || s[0] == 0x5f),
            run_len(s.skip(1), p) == (k - 1) + run_len(cur@, p),
        ensures
            run_len(cur@, p) == 0,
        decreases cur@.len(),
    {
        proof {
            reveal(run_len);
            reveal(starts_with);
            lemma_rest_zero(cur@);
        }
        let next: &'a [u8] = match eat1('_' as u8, cur, Ghost(cur@), Ghost(0)) {
            Some(out) => out,
            None => match alphanumeric1(cur) {
                Some((out, _)) => {
                    proof {
                        lemma_run_len(cur@, |b: u8| is_alphanum(b));
                    }
                    out
                },
                None => {
                    proof {
                        lemma_run_len(cur@, |b: u8| is_alphanum(b));
                    }
                    break ;
                },
            },
        };
        proof {
            let a = (cur@.len() - next@.len()) as nat;
            lemma_run_len_split(cur@, p, a);
            assert(cur@.skip(a as int) =~= next@);
            assert(s.skip(k as int).skip(a as int) =~= s.skip((k + a) as int));
            k = k + a;
        }
        cur = next;
    }
    let n: usize = input.len() - cur.len();
    let name = slice_subrange(input, 0, n);
    assert(name@ =~= s.take(n as int));
    Ok((cur, name))
}

/// Reads an unsigned decimal literal from the front of `input`. The result is
/// what is left after it, then its value.
pub fn unsigned<'a>(input: &'a [u8]) -> (r: Result<(&'a [u8], u128), ParseError<'a>>)
    ensures
        match (r, uint_literal(input@)) {
            (Ok((out, v)), Some((w, n))) => v == w && out@ == rest(input@, n) && n <= input@.len(),
            (Err(e), None) => e.rest@ == input@,
            _ => false,
        },
{
    proof {
        lemma_run_len(input@, |b: u8| is_digit(b));
    }
    match uint128(input) {
        Some((out, v)) => Ok((out, v)),
        None => Err(ParseError { rest: input }),
    }
}

} // verus!
