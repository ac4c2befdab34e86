//! Placeholder interpolation.
//!
//! A placeholder is an open marker `{{`, a kind, a colon, a name and a close
//! marker `}}`. The open markers of a text are taken from the left, without
//! overlap. The close marker that belongs to an open marker is the nearest
//! one after it: markers do not nest. Every placeholder is found in the text
//! as it was given, and what it stands for takes the place of exactly its
//! span: with spans from `s1` to `e1`, from `s2` to `e2` and so on, the
//! result is `input[0..s1] + v1 + input[e1..s2] + v2 + ...` up to the end of
//! the text. What was put in is never looked at again.
//!
//! An open marker may stand inside the span of an earlier one. Its
//! placeholder is resolved like any other, so its failure counts, but its
//! span is gone with the earlier one and nothing is put in for it.
//!
//! Two of the things a placeholder can stand for, a random identifier and the
//! current time, differ from call to call. So the specification is a relation
//! between a text and its possible outcomes, `interpolates`, and not a
//! function. What fails, and how, does not depend on these values:
//! `failure_of` is a function.

use crate::dict::same_text;
use crate::environment::Environment;
use crate::error::{Failure, InterpolationError, KuiperError, KuiperResult};
use crate::request::Request;
use crate::text::{
    chars_of, find_from, first_match, lemma_first_match, occurs_in, push_all, slice_of,
    starts_at, text_of,
};
use vstd::prelude::*;
use vstd::string::*;

verus! {

/// The two characters that begin a placeholder.
pub open spec fn open_marker() -> Seq<char> {
    "{{"@
}

/// The two characters that end a placeholder.
pub open spec fn close_marker() -> Seq<char> {
    "}}"@
}

/// A placeholder, as found in a text.
pub struct Placeholder {
    /// The index behind the close marker, where the placeholder's span ends.
    pub end: int,
    /// What stands before the first colon.
    pub kind: Seq<char>,
    /// What stands behind the first colon.
    pub name: Seq<char>,
}

/// The placeholder whose open marker stands at `start`; `None` if no close
/// marker follows, or no colon stands between the markers.
pub open spec fn placeholder_at(input: Seq<char>, start: int) -> Option<Placeholder> {
    match first_match(input, close_marker(), start + 2) {
        None => None,
        Some(close) => {
            let inner = input.subrange(start + 2, close);
            match first_match(inner, ":"@, 0) {
                None => None,
                Some(colon) => Some(
                    Placeholder {
                        end: close + 2,
                        kind: inner.subrange(0, colon),
                        name: inner.subrange(colon + 1, inner.len() as int),
                    },
                ),
            }
        },
    }
}

/// What a placeholder stands for.
pub enum Substitute {
    /// This text.
    Text(Seq<char>),
    /// A random identifier, made anew each time.
    Uuid,
    /// The time at which the placeholder is replaced.
    Now,
}

/// What the built-in expression `name` stands for.
pub open spec fn expr_substitute(name: Seq<char>) -> Result<Substitute, Failure> {
    if name == "uuid"@ {
        Ok(Substitute::Uuid)
    } else if name == "now"@ {
        Ok(Substitute::Now)
    } else {
        Err(Failure::InvalidExpr(name))
    }
}

/// What the placeholder `p` stands for in the environment `env`.
pub open spec fn substitute_for(p: Placeholder, env: Map<Seq<char>, Seq<char>>) -> Result<
    Substitute,
    Failure,
> {
    if p.kind == "env"@ {
        if env.contains_key(p.name) {
            Ok(Substitute::Text(env[p.name]))
        } else {
            Err(Failure::MissingEnvVar(p.name))
        }
    } else if p.kind == "expr"@ {
        expr_substitute(p.name)
    } else {
        Err(Failure::InvalidFormat)
    }
}

/// A digit of lower-case hexadecimal notation.
pub open spec fn is_lower_hex(c: char) -> bool {
    ('0' <= c && c <= '9') || ('a' <= c && c <= 'f')
}

/// The canonical text of a random (version 4) UUID: 32 lower-case
/// hexadecimal digits in groups of 8, 4, 4, 4 and 12, with hyphens between
/// the groups; the third group begins with `4`, the fourth with `8`, `9`, `a`
/// or `b`.
pub open spec fn is_uuid_text(s: Seq<char>) -> bool {
    &&& s.len() == 36
    &&& forall|i: int|
        0 <= i < 36 ==> if i == 8 || i == 13 || i == 18 || i == 23 {
            s[i] == '-'
        } else {
            is_lower_hex(#[trigger] s[i])
        }
    &&& s[14] == '4'
    &&& (s[19] == '8' || s[19] == '9' || s[19] == 'a' || s[19] == 'b')
}

/// A decimal digit.
pub open spec fn is_digit(c: char) -> bool {
    '0' <= c && c <= '9'
}

/// A date and a time of day, written `YYYY-MM-DDTHH:MM:SS`.
pub open spec fn is_date_time_text(s: Seq<char>) -> bool {
    &&& s.len() == 19
    &&& forall|i: int|
        0 <= i < 19 ==> if i == 4 || i == 7 {
            s[i] == '-'
        } else if i == 10 {
            s[i] == 'T'
        } else if i == 13 || i == 16 {
            s[i] == ':'
        } else {
            is_digit(#[trigger] s[i])
        }
}

/// A fraction of a second: nothing, or a point and one to nine digits.
pub open spec fn is_fraction_text(s: Seq<char>) -> bool {
    s.len() == 0 || (2 <= s.len() <= 10 && s[0] == '.' && forall|i: int|
        1 <= i < s.len() ==> is_digit(#[trigger] s[i]))
}

/// The text of a point in time: before the common era the sign `-00`, then
/// the date and the time of day, a fraction of a second where there is one,
/// and `Z`.
pub open spec fn is_timestamp_text(s: Seq<char>) -> bool {
    let signed = s.len() > 0 && s[0] == '-';
    let body = if signed {
        s.skip(3)
    } else {
        s
    };
    &&& signed ==> s.len() >= 3 && s[1] == '0' && s[2] == '0'
    &&& body.len() >= 20
    &&& is_date_time_text(body.subrange(0, 19))
    &&& is_fraction_text(body.subrange(19, body.len() - 1))
    &&& body.last() == 'Z'
}

/// Whether `value` may replace a placeholder that stands for `substitute`.
pub open spec fn admits(substitute: Substitute, value: Seq<char>) -> bool {
    match substitute {
        Substitute::Text(text) => value == text,
        Substitute::Uuid => is_uuid_text(value),
        Substitute::Now => is_timestamp_text(value),
    }
}

/// The outcome `tail` with `head` put before its text; a failure stays as
/// it is.
pub open spec fn behind(head: Seq<char>, tail: Result<Seq<char>, Failure>) -> Result<
    Seq<char>,
    Failure,
> {
    match tail {
        Ok(rest) => Ok(head + rest),
        Err(failure) => Err(failure),
    }
}

/// Whether `outcome` is `tail` behind the text `piece` and the value `value`.
pub open spec fn continues(
    piece: Seq<char>,
    value: Seq<char>,
    tail: Result<Seq<char>, Failure>,
    outcome: Result<Seq<char>, Failure>,
) -> bool {
    outcome == behind(piece + value, tail)
}

/// Whether `outcome` is a possible end of the interpolation of what `input`
/// holds from index `done` on, the open markers being looked for from index
/// `from` on. The text up to `done` has been dealt with: it ends with the
/// span of a placeholder, or is empty.
pub open spec fn interpolates_from(
    input: Seq<char>,
    env: Map<Seq<char>, Seq<char>>,
    from: int,
    done: int,
    outcome: Result<Seq<char>, Failure>,
) -> bool
    decreases input.len() - from,
{
    match first_match(input, open_marker(), from) {
        None => outcome == Ok::<Seq<char>, Failure>(input.subrange(done, input.len() as int)),
        Some(start) => {
            match placeholder_at(input, start) {
                None => outcome == Err::<Seq<char>, Failure>(Failure::InvalidFormat),
                Some(p) => match substitute_for(p, env) {
                    Err(failure) => outcome == Err::<Seq<char>, Failure>(failure),
                    Ok(substitute) => {
                        proof {
                            lemma_first_match(input, open_marker(), from);
                        }
                        if start < done {
                            interpolates_from(input, env, start + 2, done, outcome)
                        } else {
                            exists|value: Seq<char>, tail: Result<Seq<char>, Failure>|
                                admits(substitute, value) && interpolates_from(
                                    input,
                                    env,
                                    start + 2,
                                    p.end,
                                    tail,
                                ) && #[trigger] continues(
                                    input.subrange(done, start),
                                    value,
                                    tail,
                                    outcome,
                                )
                        }
                    },
                },
            }
        },
    }
}

/// Whether `outcome` is a possible end of the interpolation of `input`: the
/// failure of the first placeholder from the left that cannot be resolved,
/// or else `input` with the span of each placeholder replaced by a value
/// that the placeholder stands for.
pub open spec fn interpolates(
    input: Seq<char>,
    env: Map<Seq<char>, Seq<char>>,
    outcome: Result<Seq<char>, Failure>,
) -> bool {
    interpolates_from(input, env, 0, 0, outcome)
}

/// The failure that ends the interpolation of `input` from `from` on, if
/// there is one: that of the first placeholder that cannot be replaced.
pub open spec fn failure_from(input: Seq<char>, env: Map<Seq<char>, Seq<char>>, from: int) -> Option<
    Failure,
>
    decreases input.len() - from,
{
    match first_match(input, open_marker(), from) {
        None => None,
        Some(start) => {
            match placeholder_at(input, start) {
                None => Some(Failure::InvalidFormat),
                Some(p) => match substitute_for(p, env) {
                    Err(failure) => Some(failure),
                    Ok(_) => {
                        proof {
                            lemma_first_match(input, open_marker(), from);
                        }
                        failure_from(input, env, start + 2)
                    },
                },
            }
        },
    }
}

/// The failure that ends the interpolation of `input`, if there is one.
pub open spec fn failure_of(input: Seq<char>, env: Map<Seq<char>, Seq<char>>) -> Option<Failure> {
    failure_from(input, env, 0)
}

/// Every outcome of an interpolation fails exactly if `failure_from` names a
/// failure, and then with that failure.
pub proof fn lemma_failure_from(
    input: Seq<char>,
    env: Map<Seq<char>, Seq<char>>,
    from: int,
    done: int,
    outcome: Result<Seq<char>, Failure>,
)
    requires
        interpolates_from(input, env, from, done, outcome),
    ensures
        match outcome {
            Ok(_) => failure_from(input, env, from) is None,
            Err(failure) => failure_from(input, env, from) == Some(failure),
        },
    decreases input.len() - from,
{
    match first_match(input, open_marker(), from) {
        None => {},
        Some(start) => {
            lemma_first_match(input, open_marker(), from);
            match placeholder_at(input, start) {
                None => {},
                Some(p) => match substitute_for(p, env) {
                    Err(_) => {},
                    Ok(substitute) => {
                        if start < done {
                            lemma_failure_from(input, env, start + 2, done, outcome);
                        } else {
                            let (value, tail) = choose|
                                value: Seq<char>,
                                tail: Result<Seq<char>, Failure>,
                            |
                                admits(substitute, value) && interpolates_from(
                                    input,
                                    env,
                                    start + 2,
                                    p.end,
                                    tail,
                                ) && #[trigger] continues(
                                    input.subrange(done, start),
                                    value,
                                    tail,
                                    outcome,
                                );
                            lemma_failure_from(input, env, start + 2, p.end, tail);
                        }
                    },
                },
            }
        },
    }
}

/// Every outcome of an interpolation fails exactly if `failure_of` names a
/// failure, and then with that failure.
pub proof fn lemma_failure_of(
    input: Seq<char>,
    env: Map<Seq<char>, Seq<char>>,
    outcome: Result<Seq<char>, Failure>,
)
    requires
        interpolates(input, env, outcome),
    ensures
        match outcome {
            Ok(_) => failure_of(input, env) is None,
            Err(failure) => failure_of(input, env) == Some(failure),
        },
{
    lemma_failure_from(input, env, 0, 0, outcome);
}

/// A text without an open marker has one outcome: the text itself.
pub proof fn lemma_plain_text(
    input: Seq<char>,
    env: Map<Seq<char>, Seq<char>>,
    outcome: Result<Seq<char>, Failure>,
)
    requires
        !occurs_in(input, open_marker()),
    ensures
        interpolates(input, env, outcome) <==> outcome == Ok::<Seq<char>, Failure>(input),
        failure_of(input, env) is None,
{
    lemma_first_match(input, open_marker(), 0);
    assert(input.subrange(0, input.len() as int) =~= input);
}

/// `Uuid::new_v4` of the `uuid` crate, written out by its `Display`: a
/// random UUID with the version and variant bits set, in hyphenated
/// lower-case form. The call panics where the system has no randomness to
/// give.
#[verifier::external_body]
fn fresh_uuid() -> (text: String)
    ensures
        is_uuid_text(text@),
{
    uuid::Uuid::new_v4().to_string()
}

/// `Timestamp::now` of the `jiff` crate, written out by its `Display`: the
/// system time in UTC as a four-digit year (behind `-00` if it is negative),
/// month, day, `T`, hour, minute, second, the fraction of the second without
/// its trailing zeros, and `Z`. The call panics where the system clock is set
/// outside the years that `jiff` can hold.
#[verifier::external_body]
fn current_timestamp() -> (text: String)
    ensures
        is_timestamp_text(text@),
{
    jiff::Timestamp::now().to_string()
}

/// Whether two character sequences are equal.
fn same_chars(a: &Vec<char>, b: &Vec<char>) -> (r: bool)
    ensures
        r == (a@ == b@),
{
    if a.len() != b.len() {
        return false;
    }
    let r = starts_at(a, b, 0);
    assert(a@.subrange(0, a@.len() as int) =~= a@);
    r
}

/// An interpolation error, as the error of a resolution.
fn failed<T>(error: InterpolationError) -> (r: KuiperResult<T>)
    ensures
        r == Err::<T, KuiperError>(KuiperError::InterpolationError(error)),
{
    Err(KuiperError::InterpolationError(error))
}

impl Request {
    /// The value of the built-in expression `expr`: for `uuid` a new random
    /// identifier, for `now` the current time.
    pub fn interpolation_expr(expr: &str) -> (r: KuiperResult<String>)
        ensures
            match r {
                Ok(value) => expr_substitute(expr@) matches Ok(substitute) && admits(
                    substitute,
                    value@,
                ),
                Err(KuiperError::InterpolationError(e)) => expr_substitute(expr@) == Err::<
                    Substitute,
                    Failure,
                >(e@),
                Err(_) => false,
            },
    {
        if same_text(expr, "uuid") {
            Ok(fresh_uuid())
        } else if same_text(expr, "now") {
            Ok(current_timestamp())
        } else {
            failed(InterpolationError::InvalidExpr(expr.to_owned()))
        }
    }

    /// `input` with every placeholder replaced by what it stands for in
    /// `env`, or the failure of the first placeholder that cannot be
    /// replaced.
    pub fn interpolate_str(input: &str, env: &Environment) -> (r: KuiperResult<String>)
        ensures
            match r {
                Ok(text) => interpolates(input@, env@, Ok(text@)),
                Err(KuiperError::InterpolationError(e)) => interpolates(input@, env@, Err(e@)),
                Err(_) => false,
            },
            r is Err <==> failure_of(input@, env@) is Some,
    {
        let text = chars_of(input);
        let open = chars_of("{{");
        let close = chars_of("}}");
        let colon = chars_of(":");
        let env_kind = chars_of("env");
        let expr_kind = chars_of("expr");
        let mut acc: Vec<char> = Vec::new();
        let mut from: usize = 0;
        let mut done: usize = 0;
        proof {
            reveal_strlit("{{");
            reveal_strlit("}}");
            reveal_strlit(":");
            assert forall|o: Result<Seq<char>, Failure>| behind(acc@, o) == o by {
                if let Ok(rest) = o {
                    assert(acc@ + rest =~= rest);
                }
            }
        }
        loop
            invariant
                text@ == input@,
                open@ == open_marker(),
                open@.len() == 2,
                close@ == close_marker(),
                close@.len() == 2,
                colon@ == ":"@,
                colon@.len() == 1,
                env_kind@ == "env"@,
                expr_kind@ == "expr"@,
                from <= text.len(),
                done <= text.len(),
                forall|o: Result<Seq<char>, Failure>| #[trigger]
                    interpolates_from(text@, env@, from as int, done as int, o) ==> interpolates(
                        text@,
                        env@,
                        behind(acc@, o),
                    ),
            decreases text.len() - from,
        {
            let ghost here = from as int;
            let ghost held = acc@;
            let start = match find_from(&text, &open, from) {
                Some(start) => start,
                None => {
                    push_all(&mut acc, &slice_of(&text, done, text.len()));
                    let result = text_of(&acc);
                    proof {
                        let o = Ok::<Seq<char>, Failure>(text@.subrange(done as int, text@.len() as int));
                        assert(interpolates_from(text@, env@, here, done as int, o));
                        lemma_failure_of(text@, env@, behind(held, o));
                    }
                    return Ok(result);
                },
            };
            proof {
                lemma_first_match(text@, open@, here);
                lemma_first_match(text@, close@, start + 2);
            }
            let end = match find_from(&text, &close, start + 2) {
                Some(close_at) => close_at + 2,
                None => {
                    proof {
                        let o = Err::<Seq<char>, Failure>(Failure::InvalidFormat);
                        assert(interpolates_from(text@, env@, here, done as int, o));
                        lemma_failure_of(text@, env@, o);
                    }
                    return failed(InterpolationError::InvalidFormat);
                },
            };
            let inner = slice_of(&text, start + 2, end - 2);
            proof {
                lemma_first_match(inner@, colon@, 0);
            }
            let split = match find_from(&inner, &colon, 0) {
                Some(split) => split,
                None => {
                    proof {
                        let o = Err::<Seq<char>, Failure>(Failure::InvalidFormat);
                        assert(interpolates_from(text@, env@, here, done as int, o));
                        lemma_failure_of(text@, env@, o);
                    }
                    return failed(InterpolationError::InvalidFormat);
                },
            };
            let kind = slice_of(&inner, 0, split);
            let name = text_of(&slice_of(&inner, split + 1, inner.len()));
            let ghost p = Placeholder { end: end as int, kind: kind@, name: name@ };
            assert(placeholder_at(text@, start as int) == Some(p));
            let value: Vec<char> = if same_chars(&kind, &env_kind) {
                match env.var(name.as_str()) {
                    Some(value) => chars_of(value.as_str()),
                    None => {
                        proof {
                            let o = Err::<Seq<char>, Failure>(Failure::MissingEnvVar(name@));
                            assert(interpolates_from(text@, env@, here, done as int, o));
                            lemma_failure_of(text@, env@, o);
                        }
                        return failed(InterpolationError::MissingEnvVar(name));
                    },
                }
            } else if same_chars(&kind, &expr_kind) {
                match Self::interpolation_expr(name.as_str()) {
                    Ok(value) => chars_of(value.as_str()),
                    Err(error) => {
                        proof {
                            let o = Err::<Seq<char>, Failure>(error->InterpolationError_0@);
                            assert(interpolates_from(text@, env@, here, done as int, o));
                            lemma_failure_of(text@, env@, o);
                        }
                        return Err(error);
                    },
                }
            } else {
                proof {
                    let o = Err::<Seq<char>, Failure>(Failure::InvalidFormat);
                    assert(interpolates_from(text@, env@, here, done as int, o));
                    lemma_failure_of(text@, env@, o);
                }
                return failed(InterpolationError::InvalidFormat);
            };
            let ghost substitute = substitute_for(p, env@)->Ok_0;
            assert(admits(substitute, value@));
            if start >= done {
                let ghost piece = text@.subrange(done as int, start as int);
                let ghost was = done as int;
                push_all(&mut acc, &slice_of(&text, done, start));
                push_all(&mut acc, &value);
                done = end;
                from = start + 2;
                proof {
                    assert forall|tail: Result<Seq<char>, Failure>| #[trigger]
                        interpolates_from(
                            text@,
                            env@,
                            from as int,
                            done as int,
                            tail,
                        ) implies interpolates(text@, env@, behind(acc@, tail)) by {
                        let o = behind(piece + value@, tail);
                        assert(continues(piece, value@, tail, o));
                        assert(interpolates_from(text@, env@, here, was, o));
                        if let Ok(rest) = tail {
                            assert(held + (piece + value@ + rest) =~= acc@ + rest);
                        }
                        assert(behind(held, o) == behind(acc@, tail));
                    }
                }
            } else {
                from = start + 2;
                proof {
                    assert forall|tail: Result<Seq<char>, Failure>| #[trigger]
                        interpolates_from(
                            text@,
                            env@,
                            from as int,
                            done as int,
                            tail,
                        ) implies interpolates(text@, env@, behind(acc@, tail)) by {
                        assert(interpolates_from(text@, env@, here, done as int, tail));
                    }
                }
            }
        }
    }
}

} // verus!
