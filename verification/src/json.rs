//! The structured-body model: a JSON value of nulls, booleans, 64-bit
//! integers, strings, arrays and objects, with a serializer, a parser, JSON
//! Pointer lookup and the extraction-to-text convention used by response
//! dependencies.
//!
//! The grammar is standard JSON.  A whole number within 64-bit range is
//! held as an integer; any other number — a fraction, an exponent, a wider
//! integer — is held as its exact text and written back verbatim, since the
//! engine only ever compares and hands numbers on as text.  Inside strings
//! the parser understands the escapes `\"`,
//! `\\`, `\/`, `\b`, `\f`, `\n`, `\r` and `\t`, and `\uXXXX` for any
//! character of the basic plane (a surrogate, paired or not, is rejected);
//! the serializer writes `\"` and `\\` and the five short control escapes
//! back the same way, and writes every other character as it is.

use vstd::prelude::*;

use crate::text::{
    dec_str, digit_char, i64_dec_string, int_dec_str, is_space_char, lemma_dec_str_shape, pow10,
    space_char,
};

verus! {

/// A structured value: what a request body or a response body holds once it
/// is parsed.
#[derive(Debug, PartialEq, Eq)]
pub enum Json {
    Null,
    Bool(bool),
    Int(i64),
    /// A number beyond 64-bit whole values — a fraction, an exponent, or a
    /// wider integer — carried as its exact text and written back verbatim.
    /// The parser only ever builds it from the number grammar; a holder
    /// constructing one directly is expected to keep it there too.
    Num(String),
    Str(String),
    Arr(Vec<Json>),
    Obj(Vec<(String, Json)>),
}

/// How one character of a string value is written: double quote and
/// backslash get a backslash, the five short control escapes are used, and
/// every other character stands as it is.
pub open spec fn ser_str_char(c: char) -> Seq<char> {
    if c == '"' {
        seq!['\\', '"']
    } else if c == '\\' {
        seq!['\\', '\\']
    } else if c == '\u{8}' {
        seq!['\\', 'b']
    } else if c == '\u{c}' {
        seq!['\\', 'f']
    } else if c == '\n' {
        seq!['\\', 'n']
    } else if c == '\r' {
        seq!['\\', 'r']
    } else if c == '\t' {
        seq!['\\', 't']
    } else {
        seq![c]
    }
}

pub open spec fn ser_str_from(s: Seq<char>, i: int) -> Seq<char>
    decreases s.len() - i,
{
    if i < 0 || i >= s.len() {
        Seq::empty()
    } else {
        ser_str_char(s[i]) + ser_str_from(s, i + 1)
    }
}

/// A string value in serialized form: quoted and escaped.
pub open spec fn ser_string(s: Seq<char>) -> Seq<char> {
    seq!['"'] + ser_str_from(s, 0) + seq!['"']
}

/// The items of an array from index `i` on, comma-separated.
pub open spec fn ser_items(xs: Seq<Json>, i: int) -> Seq<char>
    decreases xs, xs.len() - i, 0int,
{
    if i < 0 || i >= xs.len() {
        Seq::empty()
    } else if i == xs.len() - 1 {
        ser(xs[i])
    } else {
        ser(xs[i]) + seq![','] + ser_items(xs, i + 1)
    }
}

/// The members of an object from index `i` on: quoted key, colon, value,
/// comma-separated.
pub open spec fn ser_members(es: Seq<(String, Json)>, i: int) -> Seq<char>
    decreases es, es.len() - i, 0int,
{
    if i < 0 || i >= es.len() {
        Seq::empty()
    } else if i == es.len() - 1 {
        ser_string(es[i].0@) + seq![':'] + ser(es[i].1)
    } else {
        ser_string(es[i].0@) + seq![':'] + ser(es[i].1) + seq![','] + ser_members(es, i + 1)
    }
}

/// The compact serialized text of a value.
pub open spec fn ser(j: Json) -> Seq<char>
    decreases j, 0int, 1int,
{
    match j {
        Json::Null => seq!['n', 'u', 'l', 'l'],
        Json::Bool(b) => if b {
            seq!['t', 'r', 'u', 'e']
        } else {
            seq!['f', 'a', 'l', 's', 'e']
        },
        Json::Int(v) => int_dec_str(v as int),
        Json::Num(t) => t@,
        Json::Str(s) => ser_string(s@),
        Json::Arr(xs) => seq!['['] + ser_items(xs@, 0) + seq![']'],
        Json::Obj(es) => seq!['{'] + ser_members(es@, 0) + seq!['}'],
    }
}

/// The mathematical shape of a structured value: what the parser's
/// specification speaks of.  Arrays and objects hold sequences, strings and
/// keys hold their characters, numbers are unbounded integers.
pub enum JsonModel {
    Null,
    Bool(bool),
    Int(int),
    Num(Seq<char>),
    Str(Seq<char>),
    Arr(Seq<JsonModel>),
    Obj(Seq<(Seq<char>, JsonModel)>),
}

pub open spec fn models_of(xs: Seq<Json>, i: int) -> Seq<JsonModel>
    decreases xs, xs.len() - i, 0int,
{
    if i < 0 || i >= xs.len() {
        Seq::empty()
    } else {
        seq![xs[i].model()] + models_of(xs, i + 1)
    }
}

pub open spec fn member_models_of(es: Seq<(String, Json)>, i: int) -> Seq<(Seq<char>, JsonModel)>
    decreases es, es.len() - i, 0int,
{
    if i < 0 || i >= es.len() {
        Seq::empty()
    } else {
        seq![(es[i].0@, es[i].1.model())] + member_models_of(es, i + 1)
    }
}

impl Json {
    /// The mathematical value this one holds.
    pub open spec fn model(self) -> JsonModel
        decreases self, 0int, 1int,
    {
        match self {
            Json::Null => JsonModel::Null,
            Json::Bool(b) => JsonModel::Bool(b),
            Json::Int(v) => JsonModel::Int(v as int),
            Json::Num(t) => JsonModel::Num(t@),
            Json::Str(s) => JsonModel::Str(s@),
            Json::Arr(xs) => JsonModel::Arr(models_of(xs@, 0)),
            Json::Obj(es) => JsonModel::Obj(member_models_of(es@, 0)),
        }
    }
}

pub proof fn lemma_models_of(xs: Seq<Json>, i: int)
    requires
        0 <= i <= xs.len(),
    ensures
        models_of(xs, i).len() == xs.len() - i,
        forall|k: int| 0 <= k < xs.len() - i ==> models_of(xs, i)[k] == xs[i + k].model(),
    decreases xs.len() - i,
{
    if i < xs.len() {
        lemma_models_of(xs, i + 1);
    }
}

pub proof fn lemma_member_models_of(es: Seq<(String, Json)>, i: int)
    requires
        0 <= i <= es.len(),
    ensures
        member_models_of(es, i).len() == es.len() - i,
        forall|k: int|
            0 <= k < es.len() - i ==> member_models_of(es, i)[k] == (
            es[i + k].0@,
            es[i + k].1.model(),
            ),
    decreases es.len() - i,
{
    if i < es.len() {
        lemma_member_models_of(es, i + 1);
    }
}

/// The nesting depth of a value: how many arrays or objects stand above
/// its deepest leaf.
pub open spec fn height(j: Json) -> nat
    decreases j, 0int, 1int,
{
    match j {
        Json::Arr(xs) => 1 + height_items(xs@, 0),
        Json::Obj(es) => 1 + height_members(es@, 0),
        _ => 0,
    }
}

pub open spec fn height_items(xs: Seq<Json>, i: int) -> nat
    decreases xs, xs.len() - i, 0int,
{
    if i < 0 || i >= xs.len() {
        0
    } else {
        let h = height(xs[i]);
        let r = height_items(xs, i + 1);
        if h > r {
            h
        } else {
            r
        }
    }
}

pub open spec fn height_members(es: Seq<(String, Json)>, i: int) -> nat
    decreases es, es.len() - i, 0int,
{
    if i < 0 || i >= es.len() {
        0
    } else {
        let h = height(es[i].1);
        let r = height_members(es, i + 1);
        if h > r {
            h
        } else {
            r
        }
    }
}

pub proof fn lemma_height_item(xs: Seq<Json>, i: int, k: int)
    requires
        0 <= i <= k < xs.len(),
    ensures
        height(xs[k]) <= height_items(xs, i),
    decreases k - i,
{
    if i < k {
        lemma_height_item(xs, i + 1, k);
    }
}

pub proof fn lemma_height_member(es: Seq<(String, Json)>, i: int, k: int)
    requires
        0 <= i <= k < es.len(),
    ensures
        height(es[k].1) <= height_members(es, i),
    decreases k - i,
{
    if i < k {
        lemma_height_member(es, i + 1, k);
    }
}

/// Structural equality up to the characters of strings and the fields of
/// nested values: what cloning preserves.
pub open spec fn json_like(a: Json, b: Json) -> bool
    decreases a, 0int, 1int,
{
    match (a, b) {
        (Json::Null, Json::Null) => true,
        (Json::Bool(x), Json::Bool(y)) => x == y,
        (Json::Int(x), Json::Int(y)) => x == y,
        (Json::Num(x), Json::Num(y)) => x@ == y@,
        (Json::Str(x), Json::Str(y)) => x@ == y@,
        (Json::Arr(xs), Json::Arr(ys)) => items_like(xs@, ys@, 0),
        (Json::Obj(xs), Json::Obj(ys)) => members_like(xs@, ys@, 0),
        _ => false,
    }
}

pub open spec fn items_like(xs: Seq<Json>, ys: Seq<Json>, i: int) -> bool
    decreases xs, xs.len() - i, 0int,
{
    if xs.len() != ys.len() {
        false
    } else if i < 0 || i >= xs.len() {
        true
    } else {
        json_like(xs[i], ys[i]) && items_like(xs, ys, i + 1)
    }
}

pub open spec fn members_like(es: Seq<(String, Json)>, fs: Seq<(String, Json)>, i: int) -> bool
    decreases es, es.len() - i, 0int,
{
    if es.len() != fs.len() {
        false
    } else if i < 0 || i >= es.len() {
        true
    } else {
        es[i].0@ == fs[i].0@ && json_like(es[i].1, fs[i].1) && members_like(es, fs, i + 1)
    }
}

proof fn lemma_items_like_join(xs: Seq<Json>, ys: Seq<Json>, i: int)
    requires
        xs.len() == ys.len(),
        0 <= i <= xs.len(),
        forall|k: int| i <= k < xs.len() ==> json_like(xs[k], ys[k]),
    ensures
        items_like(xs, ys, i),
    decreases xs.len() - i,
{
    if i < xs.len() {
        lemma_items_like_join(xs, ys, i + 1);
    }
}

proof fn lemma_members_like_join(es: Seq<(String, Json)>, fs: Seq<(String, Json)>, i: int)
    requires
        es.len() == fs.len(),
        0 <= i <= es.len(),
        forall|k: int| i <= k < es.len() ==> es[k].0@ == fs[k].0@ && json_like(es[k].1, fs[k].1),
    ensures
        members_like(es, fs, i),
    decreases es.len() - i,
{
    if i < es.len() {
        lemma_members_like_join(es, fs, i + 1);
    }
}

impl Clone for Json {
    /// A value equal to this one, structure for structure and character for
    /// character.
    fn clone(&self) -> (res: Json)
        ensures
            json_like(res, *self),
        decreases height(*self),
    {
        match self {
            Json::Null => Json::Null,
            Json::Bool(b) => Json::Bool(*b),
            Json::Int(v) => Json::Int(*v),
            Json::Num(t) => Json::Num(t.clone()),
            Json::Str(s) => Json::Str(s.clone()),
            Json::Arr(xs) => {
                let mut out: Vec<Json> = Vec::new();
                let n = xs.len();
                let mut i: usize = 0;
                while i < n
                    invariant
                        0 <= i <= n,
                        n == xs@.len(),
                        *self == Json::Arr(*xs),
                        out@.len() == i,
                        forall|k: int| 0 <= k < i ==> json_like(out@[k], xs@[k]),
                    decreases n - i,
                {
                    proof {
                        lemma_height_item(xs@, 0, i as int);
                    }
                    out.push(xs[i].clone());
                    i = i + 1;
                }
                proof {
                    lemma_items_like_join(out@, xs@, 0);
                }
                Json::Arr(out)
            },
            Json::Obj(es) => {
                let mut out: Vec<(String, Json)> = Vec::new();
                let n = es.len();
                let mut i: usize = 0;
                while i < n
                    invariant
                        0 <= i <= n,
                        n == es@.len(),
                        *self == Json::Obj(*es),
                        out@.len() == i,
                        forall|k: int|
                            0 <= k < i ==> out@[k].0@ == es@[k].0@ && json_like(
                                out@[k].1,
                                es@[k].1,
                            ),
                    decreases n - i,
                {
                    proof {
                        lemma_height_member(es@, 0, i as int);
                    }
                    let key = es[i].0.clone();
                    let val = es[i].1.clone();
                    out.push((key, val));
                    i = i + 1;
                }
                proof {
                    lemma_members_like_join(out@, es@, 0);
                }
                Json::Obj(out)
            },
        }
    }
}


/// Index of the first character at or past `i` that is not whitespace;
/// never before `i` nor past the end.
pub open spec fn skip_ws(s: Seq<char>, i: int) -> int
    decreases s.len() - i,
{
    if 0 <= i && i < s.len() && is_space_char(s[i]) {
        let r = skip_ws(s, i + 1);
        if i + 1 <= r && r <= s.len() {
            r
        } else {
            i + 1
        }
    } else {
        i
    }
}

pub open spec fn is_digit(c: char) -> bool {
    48 <= c as u32 && c as u32 <= 57
}

pub open spec fn digit_val(c: char) -> int {
    c as u32 - 48
}

/// Accumulate the decimal digits that start at `i`: the value read so far
/// and the index of the first character past the run.
pub open spec fn parse_digits(s: Seq<char>, i: int, acc: int) -> (int, int)
    decreases s.len() - i,
{
    if 0 <= i && i < s.len() && is_digit(s[i]) {
        let r = parse_digits(s, i + 1, acc * 10 + digit_val(s[i]));
        if i + 1 <= r.1 && r.1 <= s.len() {
            r
        } else {
            (r.0, i + 1)
        }
    } else {
        (acc, i)
    }
}

proof fn lemma_parse_digits_lower(s: Seq<char>, i: int, acc: int)
    requires
        acc >= 0,
    ensures
        parse_digits(s, i, acc).0 >= acc,
    decreases s.len() - i,
{
    if 0 <= i && i < s.len() && is_digit(s[i]) {
        lemma_parse_digits_lower(s, i + 1, acc * 10 + digit_val(s[i]));
    }
}

/// Index just past the run of decimal digits that starts at `i`; never
/// before `i` nor past the end.
pub open spec fn digits_end(s: Seq<char>, i: int) -> int
    decreases s.len() - i,
{
    if 0 <= i && i < s.len() && is_digit(s[i]) {
        let r = digits_end(s, i + 1);
        if i + 1 <= r && r <= s.len() {
            r
        } else {
            i + 1
        }
    } else {
        i
    }
}

proof fn lemma_digits_end(s: Seq<char>, i: int, acc: int)
    ensures
        parse_digits(s, i, acc).1 == digits_end(s, i),
    decreases s.len() - i,
{
    if 0 <= i && i < s.len() && is_digit(s[i]) {
        lemma_digits_end(s, i + 1, acc * 10 + digit_val(s[i]));
    }
}

/// The value accumulated over the digits in `[i, e)`, left to right.
pub open spec fn run_val(s: Seq<char>, i: int, e: int, acc: int) -> int
    decreases e - i,
{
    if i < e {
        run_val(s, i + 1, e, acc * 10 + digit_val(s[i]))
    } else {
        acc
    }
}

proof fn lemma_parse_digits_run(s: Seq<char>, i: int, e: int, acc: int)
    requires
        0 <= i <= e <= s.len(),
        forall|k: int| i <= k < e ==> is_digit(#[trigger] s[k]),
        e == s.len() || !is_digit(s[e]),
    ensures
        parse_digits(s, i, acc) == (run_val(s, i, e, acc), e),
    decreases e - i,
{
    if i < e {
        lemma_parse_digits_run(s, i + 1, e, acc * 10 + digit_val(s[i]));
    }
}

proof fn lemma_run_val_peel(s: Seq<char>, i: int, e: int, acc: int)
    requires
        i < e,
    ensures
        run_val(s, i, e, acc) == run_val(s, i, e - 1, acc) * 10 + digit_val(s[e - 1]),
    decreases e - i,
{
    if i + 1 < e {
        lemma_run_val_peel(s, i + 1, e, acc * 10 + digit_val(s[i]));
    } else {
        assert(run_val(s, i + 1, e, acc * 10 + digit_val(s[i])) == acc * 10 + digit_val(s[i]));
        assert(run_val(s, i, e - 1, acc) == acc);
    }
}

/// The digits of `n`, read back left to right from wherever they stand,
/// give `n` on top of the accumulator.
proof fn lemma_run_val_of_dec(s: Seq<char>, i: int, n: nat, acc: int)
    requires
        0 <= i,
        i + dec_str(n).len() <= s.len(),
        s.subrange(i, i + dec_str(n).len() as int) == dec_str(n),
    ensures
        run_val(s, i, i + dec_str(n).len() as int, acc) == acc * pow10(dec_str(n).len()) + n,
    decreases n,
{
    let l = dec_str(n).len() as int;
    if n < 10 {
        assert(s[i] == dec_str(n)[0]);
        assert(digit_val(s[i]) == n);
        assert(pow10(0) == 1);
        assert(pow10(1) == 10);
        assert(run_val(s, i + 1, i + 1, acc * 10 + digit_val(s[i])) == acc * 10 + digit_val(
            s[i],
        ));
        assert(run_val(s, i, i + 1, acc) == acc * 10 + digit_val(s[i]));
    } else {
        let lp = dec_str((n / 10) as nat).len() as int;
        assert(dec_str(n) == dec_str((n / 10) as nat) + seq![digit_char((n % 10) as int)]);
        assert(s.subrange(i, i + lp) =~= dec_str((n / 10) as nat));
        lemma_run_val_of_dec(s, i, (n / 10) as nat, acc);
        lemma_run_val_peel(s, i, i + l, acc);
        assert(s[i + l - 1] == dec_str(n)[l - 1]);
        assert(digit_val(s[i + l - 1]) == n % 10);
        assert(pow10((lp + 1) as nat) == 10 * pow10(lp as nat));
        assert((acc * pow10(lp as nat) + (n / 10) as int) * 10 + (n % 10) as int == acc * (10
            * pow10(lp as nat)) + n) by (nonlinear_arith)
            requires
                n >= 10,
        {
        }
    }
}

/// Nothing at `e` can extend a number: the end of the text, or a
/// character no number continues with.
pub open spec fn num_boundary(s: Seq<char>, e: int) -> bool {
    e == s.len() || !(is_digit(s[e]) || s[e] == '.' || s[e] == 'e' || s[e] == 'E')
}

/// Index past the fraction part starting at `e1`, or `e1` where there is
/// none, or nothing where a lone dot has no digits.
pub open spec fn frac_end(s: Seq<char>, e1: int) -> Option<int> {
    if e1 < s.len() && s[e1] == '.' {
        if e1 + 1 < s.len() && is_digit(s[e1 + 1]) {
            Some(digits_end(s, e1 + 1))
        } else {
            None
        }
    } else {
        Some(e1)
    }
}

/// Index past the exponent part starting at `e2`, or `e2` where there is
/// none, or nothing where a lone marker has no digits.
pub open spec fn exp_end(s: Seq<char>, e2: int) -> Option<int> {
    if e2 < s.len() && (s[e2] == 'e' || s[e2] == 'E') {
        let d = if e2 + 1 < s.len() && (s[e2 + 1] == '+' || s[e2 + 1] == '-') {
            e2 + 2
        } else {
            e2 + 1
        };
        if d < s.len() && is_digit(s[d]) {
            Some(digits_end(s, d))
        } else {
            None
        }
    } else {
        Some(e2)
    }
}

/// A number: optional minus, digits without a leading zero, optional
/// fraction and exponent.  A plain whole value within 64-bit range becomes
/// an integer; anything else keeps its exact text.
pub open spec fn parse_number_spec(s: Seq<char>, i: int) -> Option<(JsonModel, int)> {
    if !(0 <= i && i < s.len()) {
        None
    } else {
        let di = if s[i] == '-' {
            i + 1
        } else {
            i
        };
        if !(di < s.len() && is_digit(s[di])) {
            None
        } else {
            let m = parse_digits(s, di, 0).0;
            let e1 = digits_end(s, di);
            if s[di] == '0' && e1 > di + 1 {
                None
            } else {
                match frac_end(s, e1) {
                    None => None,
                    Some(e2) => match exp_end(s, e2) {
                        None => None,
                        Some(e3) => {
                            if e3 == e1 {
                                if s[i] != '-' && m <= 0x7fff_ffff_ffff_ffff {
                                    Some((JsonModel::Int(m), e1))
                                } else if s[i] == '-' && m <= 0x8000_0000_0000_0000 {
                                    Some((JsonModel::Int(-m), e1))
                                } else {
                                    Some((JsonModel::Num(s.subrange(i, e1)), e1))
                                }
                            } else {
                                Some((JsonModel::Num(s.subrange(i, e3)), e3))
                            }
                        },
                    },
                }
            }
        }
    }
}

/// Serialized digits parse back to the number they came from.
proof fn lemma_parse_number_of_int(s: Seq<char>, i: int, v: i64)
    requires
        0 <= i,
        i + int_dec_str(v as int).len() <= s.len(),
        s.subrange(i, i + int_dec_str(v as int).len() as int) == int_dec_str(v as int),
        num_boundary(s, i + int_dec_str(v as int).len() as int),
    ensures
        parse_number_spec(s, i) == Some(
            (JsonModel::Int(v as int), i + int_dec_str(v as int).len() as int),
        ),
{
    let mag: nat = if v < 0 {
        (-(v as int)) as nat
    } else {
        v as nat
    };
    let di = if v < 0 {
        i + 1
    } else {
        i
    };
    let l = dec_str(mag).len() as int;
    let e = di + l;
    lemma_dec_str_shape(mag);
    if v < 0 {
        assert(int_dec_str(v as int) =~= seq!['-'] + dec_str(mag));
        assert(s[i] == int_dec_str(v as int)[0]);
        assert(s[i] == '-');
    } else {
        assert(int_dec_str(v as int) =~= dec_str(mag));
    }
    assert forall|k: int| 0 <= k < l implies s.subrange(di, e)[k] == dec_str(mag)[k] by {
        assert(s[di + k] == int_dec_str(v as int)[di - i + k]);
        assert(int_dec_str(v as int)[di - i + k] == dec_str(mag)[k]);
    };
    assert(s.subrange(di, e) =~= dec_str(mag));
    assert forall|k: int| di <= k < e implies is_digit(#[trigger] s[k]) by {
        assert(s[k] == s.subrange(di, e)[k - di]);
        assert(48 <= dec_str(mag)[k - di] as u32 <= 57);
    };
    assert(s[di] == dec_str(mag)[0]);
    assert(e == s.len() || !is_digit(s[e]));
    lemma_parse_digits_run(s, di, e, 0);
    lemma_digits_end(s, di, 0);
    lemma_run_val_of_dec(s, di, mag, 0);
    assert(parse_digits(s, di, 0).0 == mag);
    assert(digits_end(s, di) == e);
    if mag >= 1 {
        assert(s[di] != '0');
    } else {
        assert(l == 1);
    }
    assert(frac_end(s, e) == Some(e));
    assert(exp_end(s, e) == Some(e));
    if v < 0 {
        assert(mag <= 0x8000_0000_0000_0000);
    } else {
        assert(mag <= 0x7fff_ffff_ffff_ffff);
    }
}

/// What a backslash escape stands for, if it is one the grammar accepts.
pub open spec fn escape_char_of(c: char) -> Option<char> {
    if c == '"' {
        Some('"')
    } else if c == '\\' {
        Some('\\')
    } else if c == '/' {
        Some('/')
    } else if c == 'b' {
        Some('\u{8}')
    } else if c == 'f' {
        Some('\u{c}')
    } else if c == 'n' {
        Some('\n')
    } else if c == 'r' {
        Some('\r')
    } else if c == 't' {
        Some('\t')
    } else {
        None
    }
}

pub open spec fn is_hex_digit(c: char) -> bool {
    is_digit(c) || (97 <= c as u32 && c as u32 <= 102) || (65 <= c as u32 && c as u32 <= 70)
}

/// The value of one hexadecimal digit, upper or lower case.
pub open spec fn hex_val(c: char) -> int {
    if is_digit(c) {
        c as u32 - 48
    } else if c as u32 >= 97 {
        c as u32 - 87
    } else {
        c as u32 - 55
    }
}

/// The value of the four hexadecimal digits starting at `i`.
pub open spec fn hex4_val(s: Seq<char>, i: int) -> int {
    hex_val(s[i]) * 4096 + hex_val(s[i + 1]) * 256 + hex_val(s[i + 2]) * 16 + hex_val(s[i + 3])
}

/// The scalar value of a character.
pub open spec fn scalar_of(c: char) -> u32 {
    c as u32
}

/// The character with this scalar value.
pub open spec fn char_of(v: u32) -> char {
    choose|c: char| #[trigger] scalar_of(c) == v
}

/// Two characters with one scalar value are one character.
proof fn lemma_char_of_unique(uc: char, v: u32)
    requires
        uc as u32 == v,
    ensures
        uc == char_of(v),
{
    assert(scalar_of(uc) == v);
    assert(scalar_of(char_of(v)) == v);
}

/// Relies on char::from_u32: the character with the given scalar value,
/// and `None` exactly on a surrogate or a value past the last code point.
pub assume_specification [ char::from_u32 ](v: u32) -> (r: Option<char>)
    ensures
        r matches Some(c) ==> c as u32 == v,
        (r is Some) <==> (v < 0xD800 || (0xDFFF < v && v <= 0x10FFFF)),
;

/// Relies on String::push: appends the one character at the end.
pub assume_specification [ String::push ](s: &mut String, ch: char)
    ensures
        final(s)@ == old(s)@.push(ch),
;

/// The characters of a string value being read at `i` (just past the
/// opening quote), and the index past the closing quote.
pub open spec fn parse_string_body(s: Seq<char>, i: int) -> Option<(Seq<char>, int)>
    decreases s.len() - i,
{
    if !(0 <= i && i < s.len()) {
        None
    } else if s[i] == '"' {
        Some((Seq::empty(), i + 1))
    } else if s[i] == '\\' {
        if i + 1 < s.len() {
            if s[i + 1] == 'u' {
                if i + 5 < s.len() && is_hex_digit(s[i + 2]) && is_hex_digit(s[i + 3])
                    && is_hex_digit(s[i + 4]) && is_hex_digit(s[i + 5]) {
                    let v = hex4_val(s, i + 2);
                    if 0xD800 <= v && v <= 0xDFFF {
                        None
                    } else {
                        match parse_string_body(s, i + 6) {
                            Some(r) => Some((seq![char_of(v as u32)] + r.0, r.1)),
                            None => None,
                        }
                    }
                } else {
                    None
                }
            } else {
                match escape_char_of(s[i + 1]) {
                    Some(c) => match parse_string_body(s, i + 2) {
                        Some(r) => Some((seq![c] + r.0, r.1)),
                        None => None,
                    },
                    None => None,
                }
            }
        } else {
            None
        }
    } else {
        match parse_string_body(s, i + 1) {
            Some(r) => Some((seq![s[i]] + r.0, r.1)),
            None => None,
        }
    }
}

/// Serialized string content, up to the closing quote, parses back to the
/// characters it came from.
proof fn lemma_parse_string_of_ser(s: Seq<char>, i: int, x: Seq<char>, kx: int)
    requires
        0 <= kx <= x.len(),
        0 <= i,
        i + ser_str_from(x, kx).len() + 1 <= s.len(),
        s.subrange(i, i + ser_str_from(x, kx).len() as int) == ser_str_from(x, kx),
        s[i + ser_str_from(x, kx).len() as int] == '"',
    ensures
        parse_string_body(s, i) == Some(
            (x.subrange(kx, x.len() as int), i + ser_str_from(x, kx).len() + 1),
        ),
    decreases x.len() - kx,
{
    if kx == x.len() {
        assert(ser_str_from(x, kx) =~= Seq::<char>::empty());
        assert(s[i] == '"');
        assert(x.subrange(kx, x.len() as int) =~= Seq::<char>::empty());
    } else {
        let c = x[kx];
        let ec = ser_str_char(c);
        let rest = ser_str_from(x, kx + 1);
        assert(ser_str_from(x, kx) == ec + rest);
        let li = ec.len() as int;
        assert forall|k: int|
            0 <= k < rest.len() implies s.subrange(
                i + li,
                i + li + rest.len() as int,
            )[k] == rest[k] by {
            assert(s[i + li + k] == ser_str_from(x, kx)[li + k]);
        };
        assert(s.subrange(i + li, i + li + rest.len() as int) =~= rest);
        assert(s[i] == ser_str_from(x, kx)[0]);
        assert(s[i + ser_str_from(x, kx).len() as int] == '"');
        lemma_parse_string_of_ser(s, i + li, x, kx + 1);
        if ec.len() == 2 {
            assert(s[i + 1] == ser_str_from(x, kx)[1]);
            assert(s[i] == '\\');
            assert(s[i + 1] == ec[1] && ec[1] != 'u');
            assert(escape_char_of(s[i + 1]) == Some(c));
            assert(seq![c] + x.subrange(kx + 1, x.len() as int) =~= x.subrange(
                kx,
                x.len() as int,
            ));
        } else {
            assert(s[i] == c && c != '"' && c != '\\');
            assert(seq![c] + x.subrange(kx + 1, x.len() as int) =~= x.subrange(
                kx,
                x.len() as int,
            ));
        }
    }
}

/// A value starting exactly at `i`: an object, array, string, literal or
/// number, and the index just past it.
pub open spec fn parse_value_spec(s: Seq<char>, i: int) -> Option<(JsonModel, int)>
    decreases s.len() - i, 1int,
{
    if !(0 <= i && i < s.len()) {
        None
    } else {
        let c = s[i];
        if c == '{' {
            let j = skip_ws(s, i + 1);
            if j < s.len() && s[j] == '}' {
                Some((JsonModel::Obj(Seq::empty()), j + 1))
            } else {
                match parse_members_spec(s, j) {
                    Some(r) => Some((JsonModel::Obj(r.0), r.1)),
                    None => None,
                }
            }
        } else if c == '[' {
            let j = skip_ws(s, i + 1);
            if j < s.len() && s[j] == ']' {
                Some((JsonModel::Arr(Seq::empty()), j + 1))
            } else {
                match parse_items_spec(s, j) {
                    Some(r) => Some((JsonModel::Arr(r.0), r.1)),
                    None => None,
                }
            }
        } else if c == '"' {
            match parse_string_body(s, i + 1) {
                Some(r) => Some((JsonModel::Str(r.0), r.1)),
                None => None,
            }
        } else if c == 't' {
            if i + 4 <= s.len() && s[i + 1] == 'r' && s[i + 2] == 'u' && s[i + 3] == 'e' {
                Some((JsonModel::Bool(true), i + 4))
            } else {
                None
            }
        } else if c == 'f' {
            if i + 5 <= s.len() && s[i + 1] == 'a' && s[i + 2] == 'l' && s[i + 3] == 's' && s[i
                + 4] == 'e' {
                Some((JsonModel::Bool(false), i + 5))
            } else {
                None
            }
        } else if c == 'n' {
            if i + 4 <= s.len() && s[i + 1] == 'u' && s[i + 2] == 'l' && s[i + 3] == 'l' {
                Some((JsonModel::Null, i + 4))
            } else {
                None
            }
        } else {
            parse_number_spec(s, i)
        }
    }
}

/// The items of a non-empty array, the first of which starts at `i`, and
/// the index past the closing bracket.
pub open spec fn parse_items_spec(s: Seq<char>, i: int) -> Option<(Seq<JsonModel>, int)>
    decreases s.len() - i, 2int,
{
    match parse_value_spec(s, i) {
        Some(r) => {
            let m = r.0;
            let k = r.1;
            if !(0 <= i && i < k && k <= s.len()) {
                None
            } else {
                let j2 = skip_ws(s, k);
                if j2 < s.len() && s[j2] == ']' {
                    Some((seq![m], j2 + 1))
                } else if j2 < s.len() && s[j2] == ',' {
                    match parse_items_spec(s, skip_ws(s, j2 + 1)) {
                        Some(r2) => Some((seq![m] + r2.0, r2.1)),
                        None => None,
                    }
                } else {
                    None
                }
            }
        },
        None => None,
    }
}

/// The members of a non-empty object, the first key of which starts at `i`,
/// and the index past the closing brace.
pub open spec fn parse_members_spec(s: Seq<char>, i: int) -> Option<
    (Seq<(Seq<char>, JsonModel)>, int),
>
    decreases s.len() - i, 2int,
{
    if !(0 <= i && i < s.len() && s[i] == '"') {
        None
    } else {
        match parse_string_body(s, i + 1) {
            Some(rk) => {
                let key = rk.0;
                let k = rk.1;
                if !(i + 1 < k && k <= s.len()) {
                    None
                } else {
                    let j2 = skip_ws(s, k);
                    if j2 < s.len() && s[j2] == ':' {
                        let j3 = skip_ws(s, j2 + 1);
                        match parse_value_spec(s, j3) {
                            Some(rv) => {
                                let m = rv.0;
                                let k2 = rv.1;
                                if !(j3 < k2 && k2 <= s.len()) {
                                    None
                                } else {
                                    let j4 = skip_ws(s, k2);
                                    if j4 < s.len() && s[j4] == '}' {
                                        Some((seq![(key, m)], j4 + 1))
                                    } else if j4 < s.len() && s[j4] == ',' {
                                        match parse_members_spec(s, skip_ws(s, j4 + 1)) {
                                            Some(r2) => Some((seq![(key, m)] + r2.0, r2.1)),
                                            None => None,
                                        }
                                    } else {
                                        None
                                    }
                                }
                            },
                            None => None,
                        }
                    } else {
                        None
                    }
                }
            },
            None => None,
        }
    }
}

/// A whole document: one value, possibly surrounded by whitespace.
pub open spec fn parse_spec(s: Seq<char>) -> Option<JsonModel> {
    let i = skip_ws(s, 0);
    match parse_value_spec(s, i) {
        Some(r) => if skip_ws(s, r.1) == s.len() {
            Some(r.0)
        } else {
            None
        },
        None => None,
    }
}


fn ascii_digit(c: char) -> (b: bool)
    ensures
        b == is_digit(c),
{
    let u = c as u32;
    48 <= u && u <= 57
}

fn hex_digit(c: char) -> (b: bool)
    ensures
        b == is_hex_digit(c),
{
    let u = c as u32;
    (48 <= u && u <= 57) || (97 <= u && u <= 102) || (65 <= u && u <= 70)
}

fn hex_value(c: char) -> (v: u32)
    requires
        is_hex_digit(c),
    ensures
        v == hex_val(c),
        v < 16,
{
    let u = c as u32;
    if u <= 57 {
        u - 48
    } else if u >= 97 {
        u - 87
    } else {
        u - 55
    }
}

fn skip_spaces(s: &str, i: usize) -> (r: usize)
    requires
        i <= s@.len(),
    ensures
        r as int == skip_ws(s@, i as int),
        i <= r <= s@.len(),
{
    let len = s.unicode_len();
    let mut r = i;
    while r < len && space_char(s.get_char(r))
        invariant
            i <= r <= len,
            len == s@.len(),
            skip_ws(s@, i as int) == skip_ws(s@, r as int),
        decreases len - r,
    {
        proof {
            assert(r + 1 <= skip_ws(s@, r + 1) <= s@.len());
            assert(skip_ws(s@, r as int) == skip_ws(s@, r + 1));
        }
        r = r + 1;
    }
    r
}

/// Scan a run of decimal digits, reporting the value, the index past the
/// run, and whether the value outgrew what a 64-bit signed integer holds.
fn scan_digits(s: &str, start: usize) -> (r: (u64, usize, bool))
    requires
        start <= s@.len(),
    ensures
        !r.2 ==> parse_digits(s@, start as int, 0) == (r.0 as int, r.1 as int),
        !r.2 ==> start <= r.1 <= s@.len(),
        r.2 ==> parse_digits(s@, start as int, 0).0 > 0x8000_0000_0000_0000,
{
    let len = s.unicode_len();
    let mut acc: u64 = 0;
    let mut j = start;
    loop
        invariant
            start <= j <= len,
            len == s@.len(),
            parse_digits(s@, start as int, 0) == parse_digits(s@, j as int, acc as int),
        decreases len - j,
    {
        if j >= len || !ascii_digit(s.get_char(j)) {
            return (acc, j, false);
        }
        let c = s.get_char(j);
        let d: u64 = (c as u32 - 48) as u64;
        if acc > 1844674407370955160u64 || (acc == 1844674407370955160u64 && d > 5) {
            proof {
                lemma_parse_digits_lower(s@, j + 1, acc as int * 10 + digit_val(c));
                assert(j + 1 <= parse_digits(s@, j + 1, acc as int * 10 + digit_val(c)).1
                    <= s@.len());
                assert(parse_digits(s@, j as int, acc as int).0 > 0x8000_0000_0000_0000);
            }
            return (acc, j, true);
        }
        proof {
            assert(j + 1 <= parse_digits(s@, j + 1, acc as int * 10 + digit_val(c)).1
                <= s@.len());
        }
        acc = acc * 10 + d;
        j = j + 1;
    }
}

fn digit_run_end(s: &str, start: usize) -> (r: usize)
    requires
        start <= s@.len(),
    ensures
        r as int == digits_end(s@, start as int),
        start <= r <= s@.len(),
{
    let len = s.unicode_len();
    let mut r = start;
    while r < len && ascii_digit(s.get_char(r))
        invariant
            start <= r <= len,
            len == s@.len(),
            digits_end(s@, start as int) == digits_end(s@, r as int),
        decreases len - r,
    {
        proof {
            assert(r + 1 <= digits_end(s@, r + 1) <= s@.len());
            assert(digits_end(s@, r as int) == digits_end(s@, r + 1));
        }
        r = r + 1;
    }
    r
}

fn parse_number_at(s: &str, i: usize) -> (r: Option<(Json, usize)>)
    requires
        i <= s@.len(),
    ensures
        match r {
            Some(v) => parse_number_spec(s@, i as int) == Some((v.0.model(), v.1 as int)) && i
                < v.1 <= s@.len(),
            None => parse_number_spec(s@, i as int) == None::<(JsonModel, int)>,
        },
{
    let len = s.unicode_len();
    if i >= len {
        return None;
    }
    let neg = s.get_char(i) == '-';
    let dstart = if neg {
        i + 1
    } else {
        i
    };
    if !(dstart < len && ascii_digit(s.get_char(dstart))) {
        return None;
    }
    let e1 = digit_run_end(s, dstart);
    if s.get_char(dstart) == '0' && e1 > dstart + 1 {
        return None;
    }
    let mut end = e1;
    let mut whole = true;
    if e1 < len && s.get_char(e1) == '.' {
        if e1 + 1 < len && ascii_digit(s.get_char(e1 + 1)) {
            end = digit_run_end(s, e1 + 1);
            whole = false;
        } else {
            return None;
        }
    }
    if end < len && (s.get_char(end) == 'e' || s.get_char(end) == 'E') {
        let d = if end + 1 < len && (s.get_char(end + 1) == '+' || s.get_char(end + 1) == '-') {
            end + 2
        } else {
            end + 1
        };
        if d < len && ascii_digit(s.get_char(d)) {
            end = digit_run_end(s, d);
            whole = false;
        } else {
            return None;
        }
    }
    proof {
        assert(frac_end(s@, e1 as int) matches Some(e2) && exp_end(s@, e2) == Some(
            end as int,
        ));
    }
    if whole {
        let (acc, _de, overflow) = scan_digits(s, dstart);
        proof {
            lemma_digits_end(s@, dstart as int, 0);
        }
        if overflow {
            let lex = s.substring_char(i, e1);
            return Some((Json::Num(lex.to_owned()), e1));
        }
        if !neg {
            if acc <= 0x7fff_ffff_ffff_ffffu64 {
                Some((Json::Int(acc as i64), e1))
            } else {
                let lex = s.substring_char(i, e1);
                Some((Json::Num(lex.to_owned()), e1))
            }
        } else {
            if acc <= 0x8000_0000_0000_0000u64 {
                let v: i64 = if acc == 0x8000_0000_0000_0000u64 {
                    i64::MIN
                } else {
                    -(acc as i64)
                };
                Some((Json::Int(v), e1))
            } else {
                let lex = s.substring_char(i, e1);
                Some((Json::Num(lex.to_owned()), e1))
            }
        }
    } else {
        let lex = s.substring_char(i, end);
        Some((Json::Num(lex.to_owned()), end))
    }
}

fn parse_string_at(s: &str, i: usize) -> (r: Option<(String, usize)>)
    requires
        i <= s@.len(),
    ensures
        match r {
            Some(v) => parse_string_body(s@, i as int) == Some((v.0@, v.1 as int)) && i < v.1
                <= s@.len(),
            None => parse_string_body(s@, i as int) == None::<(Seq<char>, int)>,
        },
{
    let len = s.unicode_len();
    let mut acc = String::new();
    let mut j = i;
    loop
        invariant
            i <= j <= len,
            len == s@.len(),
            match parse_string_body(s@, j as int) {
                Some(r2) => parse_string_body(s@, i as int) == Some((acc@ + r2.0, r2.1)),
                None => parse_string_body(s@, i as int) == None::<(Seq<char>, int)>,
            },
        decreases len - j,
    {
        if j >= len {
            return None;
        }
        let c = s.get_char(j);
        if c == '"' {
            proof {
                assert(acc@ + Seq::<char>::empty() =~= acc@);
            }
            return Some((acc, j + 1));
        }
        if c == '\\' {
            if j + 1 >= len {
                return None;
            }
            let e = s.get_char(j + 1);
            let ghost acc_old = acc@;
            if e == 'u' {
                if len - j < 6 {
                    return None;
                }
                let d1 = s.get_char(j + 2);
                let d2 = s.get_char(j + 3);
                let d3 = s.get_char(j + 4);
                let d4 = s.get_char(j + 5);
                if !(hex_digit(d1) && hex_digit(d2) && hex_digit(d3) && hex_digit(d4)) {
                    return None;
                }
                let v: u32 = hex_value(d1) * 4096 + hex_value(d2) * 256 + hex_value(d3) * 16
                    + hex_value(d4);
                proof {
                    assert(v as int == hex4_val(s@, j + 2));
                }
                if 0xD800 <= v && v <= 0xDFFF {
                    return None;
                }
                match char::from_u32(v) {
                    Some(uc) => {
                        acc.push(uc);
                        proof {
                            let hv = hex4_val(s@, j + 2);
                            assert(v as int == hv && 0 <= hv < 0x10000);
                            assert(v == hv as u32);
                            lemma_char_of_unique(uc, hv as u32);
                            assert(acc@ =~= acc_old.push(uc));
                            match parse_string_body(s@, j + 6) {
                                Some(r2) => {
                                    assert(parse_string_body(s@, j as int) == Some(
                                        (seq![uc] + r2.0, r2.1),
                                    ));
                                    assert(acc_old.push(uc) + r2.0 =~= acc_old + (seq![uc]
                                        + r2.0));
                                },
                                None => {},
                            }
                        }
                        j = j + 6;
                    },
                    None => {
                        proof {
                            assert(false);
                        }
                        return None;
                    },
                }
            } else if e == '"' {
                acc.append("\"");
                proof {
                    reveal_strlit("\"");
                    assert("\""@ =~= seq!['"']);
                }
            } else if e == '\\' {
                acc.append("\\");
                proof {
                    reveal_strlit("\\");
                    assert("\\"@ =~= seq!['\\']);
                }
            } else if e == '/' {
                acc.append("/");
                proof {
                    reveal_strlit("/");
                    assert("/"@ =~= seq!['/']);
                }
            } else if e == 'b' {
                acc.append("\u{8}");
                proof {
                    reveal_strlit("\u{8}");
                    assert("\u{8}"@ =~= seq!['\u{8}']);
                }
            } else if e == 'f' {
                acc.append("\u{c}");
                proof {
                    reveal_strlit("\u{c}");
                    assert("\u{c}"@ =~= seq!['\u{c}']);
                }
            } else if e == 'n' {
                acc.append("\n");
                proof {
                    reveal_strlit("\n");
                    assert("\n"@ =~= seq!['\n']);
                }
            } else if e == 'r' {
                acc.append("\r");
                proof {
                    reveal_strlit("\r");
                    assert("\r"@ =~= seq!['\r']);
                }
            } else if e == 't' {
                acc.append("\t");
                proof {
                    reveal_strlit("\t");
                    assert("\t"@ =~= seq!['\t']);
                }
            } else {
                return None;
            }
            if e != 'u' {
                proof {
                    let c2 = escape_char_of(s@[j + 1]).unwrap();
                    assert(acc@ =~= acc_old + seq![c2]);
                    match parse_string_body(s@, j + 2) {
                        Some(r2) => {
                            assert(parse_string_body(s@, j as int) == Some(
                                (seq![c2] + r2.0, r2.1),
                            ));
                            assert((acc_old + seq![c2]) + r2.0 =~= acc_old + (seq![c2]
                                + r2.0));
                        },
                        None => {},
                    }
                }
                j = j + 2;
            }
        } else {
            let ghost acc_old = acc@;
            let piece = s.substring_char(j, j + 1);
            acc.append(piece);
            proof {
                assert(piece@ =~= seq![s@[j as int]]);
                match parse_string_body(s@, j + 1) {
                    Some(r2) => {
                        assert((acc_old + seq![s@[j as int]]) + r2.0 =~= acc_old + (seq![
                            s@[j as int],
                        ] + r2.0));
                    },
                    None => {},
                }
            }
            j = j + 1;
        }
    }
}

fn parse_value_at(s: &str, i: usize) -> (r: Option<(Json, usize)>)
    requires
        i <= s@.len(),
    ensures
        match r {
            Some(v) => parse_value_spec(s@, i as int) == Some((v.0.model(), v.1 as int)) && i
                < v.1 <= s@.len(),
            None => parse_value_spec(s@, i as int) == None::<(JsonModel, int)>,
        },
    decreases s@.len() - i, 1int,
{
    let len = s.unicode_len();
    if i >= len {
        return None;
    }
    let c = s.get_char(i);
    if c == '{' {
        let j = skip_spaces(s, i + 1);
        if j < len && s.get_char(j) == '}' {
            let out: Vec<(String, Json)> = Vec::new();
            proof {
                assert(member_models_of(out@, 0) =~= Seq::<(Seq<char>, JsonModel)>::empty());
            }
            Some((Json::Obj(out), j + 1))
        } else {
            match parse_members_at(s, j) {
                Some((es, e)) => Some((Json::Obj(es), e)),
                None => None,
            }
        }
    } else if c == '[' {
        let j = skip_spaces(s, i + 1);
        if j < len && s.get_char(j) == ']' {
            let out: Vec<Json> = Vec::new();
            proof {
                assert(models_of(out@, 0) =~= Seq::<JsonModel>::empty());
            }
            Some((Json::Arr(out), j + 1))
        } else {
            match parse_items_at(s, j) {
                Some((xs, e)) => Some((Json::Arr(xs), e)),
                None => None,
            }
        }
    } else if c == '"' {
        match parse_string_at(s, i + 1) {
            Some((st, e)) => Some((Json::Str(st), e)),
            None => None,
        }
    } else if c == 't' {
        if len - i >= 4 && s.get_char(i + 1) == 'r' && s.get_char(i + 2) == 'u' && s.get_char(
            i + 3,
        ) == 'e' {
            Some((Json::Bool(true), i + 4))
        } else {
            None
        }
    } else if c == 'f' {
        if len - i >= 5 && s.get_char(i + 1) == 'a' && s.get_char(i + 2) == 'l' && s.get_char(
            i + 3,
        ) == 's' && s.get_char(i + 4) == 'e' {
            Some((Json::Bool(false), i + 5))
        } else {
            None
        }
    } else if c == 'n' {
        if len - i >= 4 && s.get_char(i + 1) == 'u' && s.get_char(i + 2) == 'l' && s.get_char(
            i + 3,
        ) == 'l' {
            Some((Json::Null, i + 4))
        } else {
            None
        }
    } else {
        match parse_number_at(s, i) {
            Some((v, e)) => Some((v, e)),
            None => None,
        }
    }
}

fn parse_items_at(s: &str, i: usize) -> (r: Option<(Vec<Json>, usize)>)
    requires
        i <= s@.len(),
    ensures
        match r {
            Some(v) => parse_items_spec(s@, i as int) == Some((models_of(v.0@, 0), v.1 as int))
                && i < v.1 <= s@.len(),
            None => parse_items_spec(s@, i as int) == None::<(Seq<JsonModel>, int)>,
        },
    decreases s@.len() - i, 2int,
{
    let len = s.unicode_len();
    match parse_value_at(s, i) {
        None => None,
        Some((v, k)) => {
            let j2 = skip_spaces(s, k);
            if j2 < len && s.get_char(j2) == ']' {
                let mut out: Vec<Json> = Vec::new();
                out.push(v);
                proof {
                    assert(models_of(out@, 1) =~= Seq::<JsonModel>::empty());
                    assert(models_of(out@, 0) =~= seq![v.model()]);
                }
                Some((out, j2 + 1))
            } else if j2 < len && s.get_char(j2) == ',' {
                let j3 = skip_spaces(s, j2 + 1);
                match parse_items_at(s, j3) {
                    Some((mut rest, e)) => {
                        let ghost old_rest = rest@;
                        rest.insert(0, v);
                        proof {
                            lemma_models_of(rest@, 0);
                            lemma_models_of(old_rest, 0);
                            assert(models_of(rest@, 0) =~= seq![v.model()] + models_of(
                                old_rest,
                                0,
                            ));
                        }
                        Some((rest, e))
                    },
                    None => None,
                }
            } else {
                None
            }
        },
    }
}

fn parse_members_at(s: &str, i: usize) -> (r: Option<(Vec<(String, Json)>, usize)>)
    requires
        i <= s@.len(),
    ensures
        match r {
            Some(v) => parse_members_spec(s@, i as int) == Some(
                (member_models_of(v.0@, 0), v.1 as int),
            ) && i < v.1 <= s@.len(),
            None => parse_members_spec(s@, i as int) == None::<(Seq<(Seq<char>, JsonModel)>, int)>,
        },
    decreases s@.len() - i, 2int,
{
    let len = s.unicode_len();
    if !(i < len && s.get_char(i) == '"') {
        return None;
    }
    match parse_string_at(s, i + 1) {
        None => None,
        Some((key, k)) => {
            let j2 = skip_spaces(s, k);
            if j2 < len && s.get_char(j2) == ':' {
                let j3 = skip_spaces(s, j2 + 1);
                match parse_value_at(s, j3) {
                    None => None,
                    Some((v, k2)) => {
                        let j4 = skip_spaces(s, k2);
                        if j4 < len && s.get_char(j4) == '}' {
                            let mut out: Vec<(String, Json)> = Vec::new();
                            let ghost keyv = key@;
                            out.push((key, v));
                            proof {
                                assert(member_models_of(out@, 1) =~= Seq::<
                                    (Seq<char>, JsonModel),
                                >::empty());
                                assert(member_models_of(out@, 0) =~= seq![(keyv, v.model())]);
                            }
                            Some((out, j4 + 1))
                        } else if j4 < len && s.get_char(j4) == ',' {
                            let j5 = skip_spaces(s, j4 + 1);
                            match parse_members_at(s, j5) {
                                Some((mut rest, e)) => {
                                    let ghost old_rest = rest@;
                                    let ghost keyv = key@;
                                    rest.insert(0, (key, v));
                                    proof {
                                        lemma_member_models_of(rest@, 0);
                                        lemma_member_models_of(old_rest, 0);
                                        assert(member_models_of(rest@, 0) =~= seq![
                                            (keyv, v.model()),
                                        ] + member_models_of(old_rest, 0));
                                    }
                                    Some((rest, e))
                                },
                                None => None,
                            }
                        } else {
                            None
                        }
                    },
                }
            } else {
                None
            }
        },
    }
}

/// Every number leaf of the value is a 64-bit whole value, so its text
/// has one reading.  The verbatim number carrier is left out: it promises
/// only to be written back unchanged, not how a reader splits it.
pub open spec fn whole_numbered(j: Json) -> bool
    decreases j, 0int, 1int,
{
    match j {
        Json::Num(_) => false,
        Json::Arr(xs) => whole_items(xs@, 0),
        Json::Obj(es) => whole_members(es@, 0),
        _ => true,
    }
}

pub open spec fn whole_items(xs: Seq<Json>, i: int) -> bool
    decreases xs, xs.len() - i, 0int,
{
    if i < 0 || i >= xs.len() {
        true
    } else {
        whole_numbered(xs[i]) && whole_items(xs, i + 1)
    }
}

pub open spec fn whole_members(es: Seq<(String, Json)>, i: int) -> bool
    decreases es, es.len() - i, 0int,
{
    if i < 0 || i >= es.len() {
        true
    } else {
        whole_numbered(es[i].1) && whole_members(es, i + 1)
    }
}

/// Serialized text is never empty and never starts with whitespace or a
/// closing mark.
proof fn lemma_ser_shape(j: Json)
    requires
        whole_numbered(j),
    ensures
        ser(j).len() >= 1,
        !is_space_char(ser(j)[0]),
        ser(j)[0] != ']',
        ser(j)[0] != '}',
        ser(j)[0] != ',',
{
    match j {
        Json::Int(v) => {
            let mag: nat = if v < 0 {
                (-(v as int)) as nat
            } else {
                v as nat
            };
            lemma_dec_str_shape(mag);
            if v < 0 {
                assert(int_dec_str(v as int) == seq!['-'] + dec_str(mag));
            }
        },
        _ => {},
    }
}

#[verifier::rlimit(90)]
proof fn lemma_parse_value_embedded(s: Seq<char>, i: int, j: Json)
    requires
        whole_numbered(j),
        0 <= i,
        i + ser(j).len() <= s.len(),
        s.subrange(i, i + ser(j).len() as int) == ser(j),
        num_boundary(s, i + ser(j).len() as int),
    ensures
        parse_value_spec(s, i) == Some((j.model(), i + ser(j).len() as int)),
    decreases height(j), 1int, 0int, 0int,
{
    let l = ser(j).len() as int;
    assert(s[i] == ser(j)[0]);
    match j {
        Json::Null => {
            assert(s[i + 1] == ser(j)[1] && s[i + 2] == ser(j)[2] && s[i + 3] == ser(j)[3]);
        },
        Json::Bool(b) => {
            if b {
                assert(s[i + 1] == ser(j)[1] && s[i + 2] == ser(j)[2] && s[i + 3] == ser(
                    j,
                )[3]);
            } else {
                assert(s[i + 1] == ser(j)[1] && s[i + 2] == ser(j)[2] && s[i + 3] == ser(j)[3]
                    && s[i + 4] == ser(j)[4]);
            }
        },
        Json::Int(v) => {
            let mag: nat = if v < 0 {
                (-(v as int)) as nat
            } else {
                v as nat
            };
            lemma_dec_str_shape(mag);
            if v < 0 {
                assert(int_dec_str(v as int) == seq!['-'] + dec_str(mag));
            }
            lemma_parse_number_of_int(s, i, v);
        },
        Json::Num(_) => {
            assert(false);
        },
        Json::Str(x) => {
            let mid = ser_str_from(x@, 0);
            assert(ser(j) == seq!['"'] + mid + seq!['"']);
            assert forall|k: int|
                0 <= k < mid.len() implies s.subrange(i + 1, i + 1 + mid.len() as int)[k]
                    == mid[k] by {
                assert(s[i + 1 + k] == ser(j)[1 + k]);
            };
            assert(s.subrange(i + 1, i + 1 + mid.len() as int) =~= mid);
            assert(s[i + 1 + mid.len() as int] == ser(j)[l - 1]);
            lemma_parse_string_of_ser(s, i + 1, x@, 0);
            assert(x@.subrange(0, x@.len() as int) =~= x@);
        },
        Json::Arr(xs) => {
            if xs@.len() == 0 {
                assert(ser_items(xs@, 0) =~= Seq::<char>::empty());
                assert(s[i + 1] == ser(j)[1]);
                assert(s[i + 1] == ']');
                assert(skip_ws(s, i + 1) == i + 1);
                assert(models_of(xs@, 0) =~= Seq::<JsonModel>::empty());
            } else {
                let items = ser_items(xs@, 0);
                assert(ser(j) == seq!['['] + items + seq![']']);
                assert forall|k: int|
                    0 <= k < items.len() implies s.subrange(
                        i + 1,
                        i + 1 + items.len() as int,
                    )[k] == items[k] by {
                    assert(s[i + 1 + k] == ser(j)[1 + k]);
                };
                assert(s.subrange(i + 1, i + 1 + items.len() as int) =~= items);
                assert(s[i + 1 + items.len() as int] == ser(j)[l - 1]);
                assert(whole_numbered(xs@[0]));
                lemma_ser_shape(xs@[0]);
                if xs@.len() == 1 {
                    assert(items == ser(xs@[0]));
                } else {
                    assert(items == ser(xs@[0]) + seq![','] + ser_items(xs@, 1));
                }
                assert(items[0] == ser(xs@[0])[0]);
                assert(s[i + 1] == ser(xs@[0])[0]);
                assert(skip_ws(s, i + 1) == i + 1);
                lemma_parse_items_embedded(s, i + 1, xs@, 0);
            }
        },
        Json::Obj(es) => {
            if es@.len() == 0 {
                assert(ser_members(es@, 0) =~= Seq::<char>::empty());
                assert(s[i + 1] == ser(j)[1]);
                assert(s[i + 1] == '}');
                assert(skip_ws(s, i + 1) == i + 1);
                assert(member_models_of(es@, 0) =~= Seq::<(Seq<char>, JsonModel)>::empty());
            } else {
                let members = ser_members(es@, 0);
                assert(ser(j) == seq!['{'] + members + seq!['}']);
                assert forall|k: int|
                    0 <= k < members.len() implies s.subrange(
                        i + 1,
                        i + 1 + members.len() as int,
                    )[k] == members[k] by {
                    assert(s[i + 1 + k] == ser(j)[1 + k]);
                };
                assert(s.subrange(i + 1, i + 1 + members.len() as int) =~= members);
                assert(s[i + 1 + members.len() as int] == ser(j)[l - 1]);
                if es@.len() == 1 {
                    assert(members == ser_string(es@[0].0@) + seq![':'] + ser(es@[0].1));
                } else {
                    assert(members == ser_string(es@[0].0@) + seq![':'] + ser(es@[0].1) + seq![
                        ',',
                    ] + ser_members(es@, 1));
                }
                assert(members[0] == ser_string(es@[0].0@)[0]);
                assert(s[i + 1] == '"');
                assert(skip_ws(s, i + 1) == i + 1);
                lemma_parse_members_embedded(s, i + 1, es@, 0);
            }
        },
    }
}

proof fn lemma_parse_items_embedded(s: Seq<char>, i: int, xs: Seq<Json>, kx: int)
    requires
        0 <= kx < xs.len(),
        whole_items(xs, kx),
        0 <= i,
        i + ser_items(xs, kx).len() + 1 <= s.len(),
        s.subrange(i, i + ser_items(xs, kx).len() as int) == ser_items(xs, kx),
        s[i + ser_items(xs, kx).len() as int] == ']',
    ensures
        parse_items_spec(s, i) == Some((models_of(xs, kx), i + ser_items(xs, kx).len() + 1)),
    decreases 1 + height_items(xs, kx), 0int, xs.len() - kx, 0int,
{
    let elem = ser(xs[kx]);
    let whole = ser_items(xs, kx);
    assert forall|k: int|
        0 <= k < elem.len() implies s.subrange(i, i + elem.len() as int)[k] == elem[k] by {
        assert(s[i + k] == whole[k]);
        assert(whole[k] == elem[k]);
    };
    assert(s.subrange(i, i + elem.len() as int) =~= elem);
    let k1 = i + elem.len() as int;
    if kx == xs.len() - 1 {
        assert(whole == elem);
        assert(s[k1] == ']');
    } else {
        assert(whole == elem + seq![','] + ser_items(xs, kx + 1));
        assert(s[k1] == whole[elem.len() as int]);
        assert(s[k1] == ',');
    }
    assert(num_boundary(s, k1));
    lemma_height_item(xs, kx, kx);
    lemma_parse_value_embedded(s, i, xs[kx]);
    lemma_ser_shape(xs[kx]);
    assert(skip_ws(s, k1) == k1);
    if kx == xs.len() - 1 {
        assert(models_of(xs, kx) =~= seq![xs[kx].model()] + Seq::<JsonModel>::empty());
        assert(seq![xs[kx].model()] + Seq::<JsonModel>::empty() =~= seq![xs[kx].model()]);
        assert(models_of(xs, kx) =~= seq![xs[kx].model()]);
    } else {
        let rest = ser_items(xs, kx + 1);
        assert(whole == elem + seq![','] + rest);
        assert forall|k: int|
            0 <= k < rest.len() implies s.subrange(
                k1 + 1,
                k1 + 1 + rest.len() as int,
            )[k] == rest[k] by {
            assert(s[k1 + 1 + k] == whole[elem.len() + 1 + k]);
        };
        assert(s.subrange(k1 + 1, k1 + 1 + rest.len() as int) =~= rest);
        assert(s[k1 + 1 + rest.len() as int] == s[i + whole.len() as int]);
        assert(whole_items(xs, kx + 1));
        assert(whole_numbered(xs[kx + 1]));
        lemma_ser_shape(xs[kx + 1]);
        if kx + 1 == xs.len() - 1 {
            assert(rest == ser(xs[kx + 1]));
        } else {
            assert(rest == ser(xs[kx + 1]) + seq![','] + ser_items(xs, kx + 2));
        }
        assert(rest[0] == ser(xs[kx + 1])[0]);
        assert(s[k1 + 1] == ser(xs[kx + 1])[0]);
        assert(skip_ws(s, k1 + 1) == k1 + 1);
        assert(height_items(xs, kx + 1) <= height_items(xs, kx));
        lemma_parse_items_embedded(s, k1 + 1, xs, kx + 1);
        assert(seq![xs[kx].model()] + models_of(xs, kx + 1) =~= models_of(xs, kx));
    }
}

proof fn lemma_parse_members_embedded(s: Seq<char>, i: int, es: Seq<(String, Json)>, kx: int)
    requires
        0 <= kx < es.len(),
        whole_members(es, kx),
        0 <= i,
        i + ser_members(es, kx).len() + 1 <= s.len(),
        s.subrange(i, i + ser_members(es, kx).len() as int) == ser_members(es, kx),
        s[i + ser_members(es, kx).len() as int] == '}',
    ensures
        parse_members_spec(s, i) == Some(
            (member_models_of(es, kx), i + ser_members(es, kx).len() + 1),
        ),
    decreases 1 + height_members(es, kx), 0int, es.len() - kx, 0int,
{
    let key = es[kx].0@;
    let keyser = ser_string(key);
    let elem = ser(es[kx].1);
    let whole = ser_members(es, kx);
    assert(whole[0] == keyser[0]);
    assert(s[i] == '"');
    let mid = ser_str_from(key, 0);
    assert(keyser == seq!['"'] + mid + seq!['"']);
    assert forall|k: int|
        0 <= k < mid.len() implies s.subrange(i + 1, i + 1 + mid.len() as int)[k] == mid[k] by {
        assert(s[i + 1 + k] == whole[1 + k]);
        assert(whole[1 + k] == keyser[1 + k]);
    };
    assert(s.subrange(i + 1, i + 1 + mid.len() as int) =~= mid);
    assert(s[i + 1 + mid.len() as int] == whole[keyser.len() - 1]);
    assert(s[i + 1 + mid.len() as int] == '"');
    lemma_parse_string_of_ser(s, i + 1, key, 0);
    assert(key.subrange(0, key.len() as int) =~= key);
    let k1 = i + keyser.len() as int;
    assert(s[k1] == whole[keyser.len() as int]);
    assert(s[k1] == ':');
    assert(skip_ws(s, k1) == k1);
    assert forall|k: int|
        0 <= k < elem.len() implies s.subrange(
            k1 + 1,
            k1 + 1 + elem.len() as int,
        )[k] == elem[k] by {
        assert(s[k1 + 1 + k] == whole[keyser.len() + 1 + k]);
        assert(whole[keyser.len() + 1 + k] == elem[k]);
    };
    assert(s.subrange(k1 + 1, k1 + 1 + elem.len() as int) =~= elem);
    lemma_ser_shape(es[kx].1);
    assert(s[k1 + 1] == elem[0]);
    assert(skip_ws(s, k1 + 1) == k1 + 1);
    let k2 = k1 + 1 + elem.len() as int;
    if kx == es.len() - 1 {
        assert(whole == keyser + seq![':'] + elem);
        assert(s[k2] == '}');
    } else {
        assert(whole == keyser + seq![':'] + elem + seq![','] + ser_members(es, kx + 1));
        assert(s[k2] == whole[keyser.len() + 1 + elem.len() as int]);
        assert(s[k2] == ',');
    }
    assert(num_boundary(s, k2));
    lemma_height_member(es, kx, kx);
    lemma_parse_value_embedded(s, k1 + 1, es[kx].1);
    assert(skip_ws(s, k2) == k2);
    if kx == es.len() - 1 {
        assert(member_models_of(es, kx) =~= seq![(key, es[kx].1.model())]);
    } else {
        let rest = ser_members(es, kx + 1);
        assert(whole == keyser + seq![':'] + elem + seq![','] + rest);
        assert forall|k: int|
            0 <= k < rest.len() implies s.subrange(
                k2 + 1,
                k2 + 1 + rest.len() as int,
            )[k] == rest[k] by {
            assert(s[k2 + 1 + k] == whole[keyser.len() + 1 + elem.len() + 1 + k]);
        };
        assert(s.subrange(k2 + 1, k2 + 1 + rest.len() as int) =~= rest);
        assert(s[k2 + 1 + rest.len() as int] == s[i + whole.len() as int]);
        assert(whole_members(es, kx + 1));
        if kx + 1 == es.len() - 1 {
            assert(rest == ser_string(es[kx + 1].0@) + seq![':'] + ser(es[kx + 1].1));
        } else {
            assert(rest == ser_string(es[kx + 1].0@) + seq![':'] + ser(es[kx + 1].1) + seq![
                ',',
            ] + ser_members(es, kx + 2));
        }
        assert(rest[0] == ser_string(es[kx + 1].0@)[0]);
        assert(s[k2 + 1] == '"');
        assert(height_members(es, kx + 1) <= height_members(es, kx));
        lemma_parse_members_embedded(s, k2 + 1, es, kx + 1);
        assert(seq![(key, es[kx].1.model())] + member_models_of(es, kx + 1)
            =~= member_models_of(es, kx));
    }
}

/// Writing a value out and reading it back gives the value: the parser
/// inverts the serializer on every value whose number leaves are 64-bit
/// whole values.
pub proof fn lemma_round_trip(j: Json)
    requires
        whole_numbered(j),
    ensures
        parse_spec(ser(j)) == Some(j.model()),
{
    let s = ser(j);
    lemma_ser_shape(j);
    assert(skip_ws(s, 0) == 0);
    assert(s.subrange(0, s.len() as int) =~= s);
    assert(num_boundary(s, s.len() as int));
    lemma_parse_value_embedded(s, 0, j);
    assert(skip_ws(s, s.len() as int) == s.len());
}

/// Parse a whole document; the result's model is exactly what the grammar
/// gives the text, and `None` means the text is not in the grammar.
pub fn parse(s: &str) -> (r: Option<Json>)
    ensures
        match r {
            Some(j) => parse_spec(s@) == Some(j.model()),
            None => parse_spec(s@) == None::<JsonModel>,
        },
{
    let i = skip_spaces(s, 0);
    match parse_value_at(s, i) {
        Some((v, k)) => {
            let e = skip_spaces(s, k);
            let len = s.unicode_len();
            if e == len {
                Some(v)
            } else {
                None
            }
        },
        None => None,
    }
}

/// Append the escaped form of a string value, quotes included, to `out`.
fn append_ser_string(out: &mut String, s: &str)
    ensures
        final(out)@ == old(out)@ + ser_string(s@),
{
    let len = s.unicode_len();
    out.append("\"");
    proof {
        reveal_strlit("\"");
        assert("\""@ =~= seq!['"']);
    }
    let mut i: usize = 0;
    while i < len
        invariant
            0 <= i <= len,
            len == s@.len(),
            out@ + ser_str_from(s@, i as int) == old(out)@ + seq!['"'] + ser_str_from(s@, 0),
        decreases len - i,
    {
        let c = s.get_char(i);
        if c == '"' {
            out.append("\\\"");
            proof {
                reveal_strlit("\\\"");
                assert("\\\""@ =~= seq!['\\', '"']);
            }
        } else if c == '\\' {
            out.append("\\\\");
            proof {
                reveal_strlit("\\\\");
                assert("\\\\"@ =~= seq!['\\', '\\']);
            }
        } else if c == '\u{8}' {
            out.append("\\b");
            proof {
                reveal_strlit("\\b");
                assert("\\b"@ =~= seq!['\\', 'b']);
            }
        } else if c == '\u{c}' {
            out.append("\\f");
            proof {
                reveal_strlit("\\f");
                assert("\\f"@ =~= seq!['\\', 'f']);
            }
        } else if c == '\n' {
            out.append("\\n");
            proof {
                reveal_strlit("\\n");
                assert("\\n"@ =~= seq!['\\', 'n']);
            }
        } else if c == '\r' {
            out.append("\\r");
            proof {
                reveal_strlit("\\r");
                assert("\\r"@ =~= seq!['\\', 'r']);
            }
        } else if c == '\t' {
            out.append("\\t");
            proof {
                reveal_strlit("\\t");
                assert("\\t"@ =~= seq!['\\', 't']);
            }
        } else {
            let piece = s.substring_char(i, i + 1);
            out.append(piece);
            proof {
                assert(piece@ =~= seq![s@[i as int]]);
            }
        }
        proof {
            assert(out@ + ser_str_from(s@, i + 1) =~= old(out)@ + seq!['"'] + ser_str_from(
                s@,
                0,
            ));
        }
        i = i + 1;
    }
    out.append("\"");
    proof {
        assert(ser_str_from(s@, len as int) =~= Seq::<char>::empty());
        assert(out@ =~= old(out)@ + ser_string(s@));
    }
}

/// Append the serialized text of a value to `out`.
fn append_ser(out: &mut String, j: &Json)
    ensures
        final(out)@ == old(out)@ + ser(*j),
    decreases height(*j),
{
    match j {
        Json::Null => {
            out.append("null");
            proof {
                reveal_strlit("null");
                assert("null"@ =~= seq!['n', 'u', 'l', 'l']);
            }
        },
        Json::Bool(b) => {
            if *b {
                out.append("true");
                proof {
                    reveal_strlit("true");
                    assert("true"@ =~= seq!['t', 'r', 'u', 'e']);
                }
            } else {
                out.append("false");
                proof {
                    reveal_strlit("false");
                    assert("false"@ =~= seq!['f', 'a', 'l', 's', 'e']);
                }
            }
        },
        Json::Int(v) => {
            let d = i64_dec_string(*v);
            out.append(d.as_str());
        },
        Json::Num(t) => {
            out.append(t.as_str());
        },
        Json::Str(s) => {
            append_ser_string(out, s.as_str());
        },
        Json::Arr(xs) => {
            out.append("[");
            proof {
                reveal_strlit("[");
                assert("["@ =~= seq!['[']);
            }
            let n = xs.len();
            let mut i: usize = 0;
            while i < n
                invariant
                    0 <= i <= n,
                    n == xs@.len(),
                    *j == Json::Arr(*xs),
                    out@ + ser_items(xs@, i as int) == old(out)@ + seq!['['] + ser_items(xs@, 0),
                decreases n - i,
            {
                proof {
                    lemma_height_item(xs@, 0, i as int);
                }
                append_ser(out, &xs[i]);
                if i + 1 < n {
                    out.append(",");
                    proof {
                        reveal_strlit(",");
                        assert(","@ =~= seq![',']);
                    }
                }
                proof {
                    assert(out@ + ser_items(xs@, i + 1) =~= old(out)@ + seq!['['] + ser_items(
                        xs@,
                        0,
                    ));
                }
                i = i + 1;
            }
            out.append("]");
            proof {
                reveal_strlit("]");
                assert("]"@ =~= seq![']']);
                assert(ser_items(xs@, n as int) =~= Seq::<char>::empty());
                assert(ser(*j) =~= seq!['['] + ser_items(xs@, 0) + seq![']']);
                assert(out@ =~= old(out)@ + ser(*j));
            }
        },
        Json::Obj(es) => {
            out.append("{");
            proof {
                reveal_strlit("{");
                assert("{"@ =~= seq!['{']);
            }
            let n = es.len();
            let mut i: usize = 0;
            while i < n
                invariant
                    0 <= i <= n,
                    n == es@.len(),
                    *j == Json::Obj(*es),
                    out@ + ser_members(es@, i as int) == old(out)@ + seq!['{'] + ser_members(
                        es@,
                        0,
                    ),
                decreases n - i,
            {
                proof {
                    lemma_height_member(es@, 0, i as int);
                }
                append_ser_string(out, es[i].0.as_str());
                out.append(":");
                proof {
                    reveal_strlit(":");
                    assert(":"@ =~= seq![':']);
                }
                append_ser(out, &es[i].1);
                if i + 1 < n {
                    out.append(",");
                    proof {
                        reveal_strlit(",");
                        assert(","@ =~= seq![',']);
                    }
                }
                proof {
                    assert(out@ + ser_members(es@, i + 1) =~= old(out)@ + seq!['{'] + ser_members(
                        es@,
                        0,
                    ));
                }
                i = i + 1;
            }
            out.append("}");
            proof {
                reveal_strlit("}");
                assert("}"@ =~= seq!['}']);
                assert(ser_members(es@, n as int) =~= Seq::<char>::empty());
                assert(ser(*j) =~= seq!['{'] + ser_members(es@, 0) + seq!['}']);
                assert(out@ =~= old(out)@ + ser(*j));
            }
        },
    }
}

/// Serialize a value to its compact text.
pub fn to_text(j: &Json) -> (s: String)
    ensures
        s@ == ser(*j),
{
    let mut out = String::new();
    append_ser(&mut out, j);
    out
}


/// Serialized text of a model value.
pub open spec fn ser_model(m: JsonModel) -> Seq<char>
    decreases m, 0int, 1int,
{
    match m {
        JsonModel::Null => seq!['n', 'u', 'l', 'l'],
        JsonModel::Bool(b) => if b {
            seq!['t', 'r', 'u', 'e']
        } else {
            seq!['f', 'a', 'l', 's', 'e']
        },
        JsonModel::Int(v) => int_dec_str(v),
        JsonModel::Num(t) => t,
        JsonModel::Str(x) => ser_string(x),
        JsonModel::Arr(ms) => seq!['['] + ser_model_items(ms, 0) + seq![']'],
        JsonModel::Obj(ms) => seq!['{'] + ser_model_members(ms, 0) + seq!['}'],
    }
}

pub open spec fn ser_model_items(ms: Seq<JsonModel>, i: int) -> Seq<char>
    decreases ms, ms.len() - i, 0int,
{
    if i < 0 || i >= ms.len() {
        Seq::empty()
    } else if i == ms.len() - 1 {
        ser_model(ms[i])
    } else {
        ser_model(ms[i]) + seq![','] + ser_model_items(ms, i + 1)
    }
}

pub open spec fn ser_model_members(ms: Seq<(Seq<char>, JsonModel)>, i: int) -> Seq<char>
    decreases ms, ms.len() - i, 0int,
{
    if i < 0 || i >= ms.len() {
        Seq::empty()
    } else if i == ms.len() - 1 {
        ser_string(ms[i].0) + seq![':'] + ser_model(ms[i].1)
    } else {
        ser_string(ms[i].0) + seq![':'] + ser_model(ms[i].1) + seq![','] + ser_model_members(
            ms,
            i + 1,
        )
    }
}

/// Serializing a value is serializing its model.
pub proof fn lemma_ser_model(j: Json)
    ensures
        ser_model(j.model()) == ser(j),
    decreases height(j), 1int, 0int,
{
    match j {
        Json::Arr(xs) => {
            lemma_ser_model_items(xs@, 0);
        },
        Json::Obj(es) => {
            lemma_ser_model_members(es@, 0);
        },
        _ => {},
    }
}

proof fn lemma_ser_model_items(xs: Seq<Json>, i: int)
    requires
        0 <= i <= xs.len(),
    ensures
        ser_model_items(models_of(xs, 0), i) == ser_items(xs, i),
    decreases 1 + height_items(xs, 0), 0int, xs.len() - i,
{
    lemma_models_of(xs, 0);
    if i < xs.len() {
        lemma_height_item(xs, 0, i);
        lemma_ser_model(xs[i]);
        lemma_ser_model_items(xs, i + 1);
    }
}

proof fn lemma_ser_model_members(es: Seq<(String, Json)>, i: int)
    requires
        0 <= i <= es.len(),
    ensures
        ser_model_members(member_models_of(es, 0), i) == ser_members(es, i),
    decreases 1 + height_members(es, 0), 0int, es.len() - i,
{
    lemma_member_models_of(es, 0);
    if i < es.len() {
        lemma_height_member(es, 0, i);
        lemma_ser_model(es[i].1);
        lemma_ser_model_members(es, i + 1);
    }
}

/// The text a dependency receives when it extracts this value: nothing for
/// null, the characters themselves for a string, the serialized text for
/// anything else.
pub open spec fn extract_text(m: JsonModel) -> Seq<char> {
    match m {
        JsonModel::Null => Seq::empty(),
        JsonModel::Str(x) => x,
        _ => ser_model(m),
    }
}

/// Turn an extracted value into the text a placeholder receives.
pub fn extract(j: &Json) -> (r: String)
    ensures
        r@ == extract_text(j.model()),
{
    match j {
        Json::Null => String::new(),
        Json::Str(x) => x.clone(),
        _ => {
            proof {
                lemma_ser_model(*j);
            }
            to_text(j)
        },
    }
}

/// Index of the first `/` at or past `i`, or the end; never before `i` nor
/// past the end.
pub open spec fn ptr_token_end(p: Seq<char>, i: int) -> int
    decreases p.len() - i,
{
    if 0 <= i && i < p.len() {
        if p[i] == '/' {
            i
        } else {
            let r = ptr_token_end(p, i + 1);
            if i + 1 <= r && r <= p.len() {
                r
            } else {
                i + 1
            }
        }
    } else {
        p.len() as int
    }
}

/// A reference token with its escapes undone: `~1` stands for `/` and `~0`
/// for `~`.
pub open spec fn unescape_ptr_token(t: Seq<char>, i: int) -> Seq<char>
    decreases t.len() - i,
{
    if !(0 <= i && i < t.len()) {
        Seq::empty()
    } else if t[i] == '~' && i + 1 < t.len() && t[i + 1] == '1' {
        seq!['/'] + unescape_ptr_token(t, i + 2)
    } else if t[i] == '~' && i + 1 < t.len() && t[i + 1] == '0' {
        seq!['~'] + unescape_ptr_token(t, i + 2)
    } else {
        seq![t[i]] + unescape_ptr_token(t, i + 1)
    }
}

pub open spec fn all_digits(t: Seq<char>, i: int) -> bool
    decreases t.len() - i,
{
    if !(0 <= i && i < t.len()) {
        true
    } else {
        is_digit(t[i]) && all_digits(t, i + 1)
    }
}

pub open spec fn digits_value(t: Seq<char>, i: int, acc: int) -> int
    decreases t.len() - i,
{
    if !(0 <= i && i < t.len()) {
        acc
    } else {
        digits_value(t, i + 1, acc * 10 + digit_val(t[i]))
    }
}

proof fn lemma_digits_value_lower(t: Seq<char>, i: int, acc: int)
    requires
        acc >= 0,
        all_digits(t, i),
    ensures
        digits_value(t, i, acc) >= acc,
    decreases t.len() - i,
{
    if 0 <= i && i < t.len() {
        lemma_digits_value_lower(t, i + 1, acc * 10 + digit_val(t[i]));
    }
}

/// How a reference token reads as an array index: digits only, no plus
/// sign, no leading zero.
pub open spec fn parse_index_spec(t: Seq<char>) -> Option<int> {
    if t.len() == 0 {
        None
    } else if t[0] == '+' {
        None
    } else if t[0] == '0' && t.len() > 1 {
        None
    } else if all_digits(t, 0) {
        Some(digits_value(t, 0, 0))
    } else {
        None
    }
}

/// The member a key names, later members superseding earlier ones.
pub open spec fn obj_member_lookup(ms: Seq<(Seq<char>, JsonModel)>, key: Seq<char>) -> Option<
    JsonModel,
>
    decreases ms.len(),
{
    if ms.len() == 0 {
        None
    } else if ms.last().0 == key {
        Some(ms.last().1)
    } else {
        obj_member_lookup(ms.drop_last(), key)
    }
}

/// One step of pointer lookup: the child a reference token names.
pub open spec fn ptr_child(m: JsonModel, tok: Seq<char>) -> Option<JsonModel> {
    match m {
        JsonModel::Obj(ms) => obj_member_lookup(ms, tok),
        JsonModel::Arr(xs) => match parse_index_spec(tok) {
            Some(ix) => if 0 <= ix && ix < xs.len() {
                Some(xs[ix])
            } else {
                None
            },
            None => None,
        },
        _ => None,
    }
}

pub open spec fn ptr_steps(m: JsonModel, p: Seq<char>, i: int) -> Option<JsonModel>
    decreases p.len() - i,
{
    if !(0 <= i && i <= p.len()) {
        None
    } else {
        let e = ptr_token_end(p, i);
        let tok = unescape_ptr_token(p.subrange(i, e), 0);
        match ptr_child(m, tok) {
            Some(c) => if e == p.len() {
                Some(c)
            } else {
                ptr_steps(c, p, e + 1)
            },
            None => None,
        }
    }
}

/// JSON Pointer lookup: the empty pointer names the value itself, and each
/// `/`-separated reference token steps into a member or an item.
pub open spec fn ptr_lookup(m: JsonModel, p: Seq<char>) -> Option<JsonModel> {
    if p.len() == 0 {
        Some(m)
    } else if p[0] != '/' {
        None
    } else {
        ptr_steps(m, p, 1)
    }
}

fn unescape_token_exec(t: &str) -> (r: String)
    ensures
        r@ == unescape_ptr_token(t@, 0),
{
    let len = t.unicode_len();
    let mut out = String::new();
    let mut i: usize = 0;
    while i < len
        invariant
            0 <= i <= len,
            len == t@.len(),
            out@ + unescape_ptr_token(t@, i as int) == unescape_ptr_token(t@, 0),
        decreases len - i,
    {
        let ghost out_old = out@;
        let c = t.get_char(i);
        let mut step: usize = 1;
        if c == '~' && i + 1 < len && t.get_char(i + 1) == '1' {
            out.append("/");
            step = 2;
            proof {
                reveal_strlit("/");
                assert(out@ =~= out_old + seq!['/']);
                assert((out_old + seq!['/']) + unescape_ptr_token(t@, i + 2) =~= out_old + (
                seq!['/'] + unescape_ptr_token(t@, i + 2)));
            }
        } else if c == '~' && i + 1 < len && t.get_char(i + 1) == '0' {
            out.append("~");
            step = 2;
            proof {
                reveal_strlit("~");
                assert(out@ =~= out_old + seq!['~']);
                assert((out_old + seq!['~']) + unescape_ptr_token(t@, i + 2) =~= out_old + (
                seq!['~'] + unescape_ptr_token(t@, i + 2)));
            }
        } else {
            let piece = t.substring_char(i, i + 1);
            out.append(piece);
            proof {
                assert(piece@ =~= seq![t@[i as int]]);
                assert((out_old + seq![t@[i as int]]) + unescape_ptr_token(t@, i + 1)
                    =~= out_old + (seq![t@[i as int]] + unescape_ptr_token(t@, i + 1)));
            }
        }
        i = i + step;
    }
    proof {
        assert(unescape_ptr_token(t@, len as int) =~= Seq::<char>::empty());
        assert(out@ + Seq::<char>::empty() =~= out@);
    }
    out
}

fn parse_index_exec(t: &str) -> (r: Option<usize>)
    ensures
        match r {
            Some(ix) => parse_index_spec(t@) == Some(ix as int),
            None => parse_index_spec(t@) == None::<int> || (parse_index_spec(t@) matches Some(
                big,
            ) && big > usize::MAX),
        },
{
    let len = t.unicode_len();
    if len == 0 {
        return None;
    }
    let first = t.get_char(0);
    if first == '+' {
        return None;
    }
    if first == '0' && len > 1 {
        return None;
    }
    let mut acc: usize = 0;
    let mut i: usize = 0;
    while i < len
        invariant
            0 <= i <= len,
            len == t@.len(),
            t@.len() > 0,
            t@[0] != '+',
            !(t@[0] == '0' && t@.len() > 1),
            all_digits(t@, 0) == all_digits(t@, i as int),
            all_digits(t@, i as int) ==> digits_value(t@, 0, 0) == digits_value(
                t@,
                i as int,
                acc as int,
            ),
            forall|k: int| 0 <= k < i ==> is_digit(t@[k]),
        decreases len - i,
    {
        let c = t.get_char(i);
        if !ascii_digit(c) {
            return None;
        }
        let d: usize = (c as u32 - 48) as usize;
        if acc > (usize::MAX - d) / 10 {
            if check_all_digits(t, i + 1) {
                proof {
                    assert(acc as int * 10 + digit_val(c) > usize::MAX as int);
                    lemma_digits_value_lower(t@, i + 1, acc as int * 10 + digit_val(c));
                    assert(all_digits(t@, i as int));
                    assert(parse_index_spec(t@) matches Some(big) && big > usize::MAX);
                }
                return None;
            } else {
                proof {
                    assert(!all_digits(t@, i as int));
                    assert(parse_index_spec(t@) == None::<int>);
                }
                return None;
            }
        }
        acc = acc * 10 + d;
        i = i + 1;
    }
    Some(acc)
}

fn check_all_digits(t: &str, i: usize) -> (b: bool)
    requires
        i <= t@.len(),
    ensures
        b == all_digits(t@, i as int),
{
    let len = t.unicode_len();
    let mut j = i;
    while j < len
        invariant
            i <= j <= len,
            len == t@.len(),
            all_digits(t@, i as int) == all_digits(t@, j as int),
        decreases len - j,
    {
        if !ascii_digit(t.get_char(j)) {
            return false;
        }
        j = j + 1;
    }
    true
}

fn pointer_steps<'a>(j: &'a Json, p: &str, i: usize) -> (r: Option<&'a Json>)
    requires
        i <= p@.len(),
    ensures
        match r {
            Some(v) => ptr_steps(j.model(), p@, i as int) == Some(v.model()),
            None => ptr_steps(j.model(), p@, i as int) == None::<JsonModel>,
        },
    decreases p@.len() - i,
{
    let plen = p.unicode_len();
    let mut e = i;
    while e < plen && p.get_char(e) != '/'
        invariant
            i <= e <= plen,
            plen == p@.len(),
            ptr_token_end(p@, i as int) == ptr_token_end(p@, e as int),
        decreases plen - e,
    {
        proof {
            assert(e + 1 <= ptr_token_end(p@, e + 1) <= p@.len());
            assert(ptr_token_end(p@, e as int) == ptr_token_end(p@, e + 1));
        }
        e = e + 1;
    }
    proof {
        assert(ptr_token_end(p@, i as int) == e as int);
    }
    let rawtok = p.substring_char(i, e);
    let tok = unescape_token_exec(rawtok);
    let ghost tokv = unescape_ptr_token(p@.subrange(i as int, e as int), 0);
    proof {
        assert(tok@ == tokv);
    }
    let child: &'a Json = match j {
        Json::Obj(es) => {
            let ghost ms = member_models_of(es@, 0);
            proof {
                lemma_member_models_of(es@, 0);
            }
            let n = es.len();
            let mut k: usize = n;
            let mut found: Option<&'a Json> = None;
            proof {
                assert(ms.take(n as int) =~= ms);
            }
            while k > 0 && found.is_none()
                invariant
                    0 <= k <= n,
                    n == es@.len(),
                    tokv == tok@,
                    ms == member_models_of(es@, 0),
                    ms.len() == n,
                    forall|x: int| 0 <= x < n ==> ms[x] == (es@[x].0@, es@[x].1.model()),
                    match found {
                        Some(v) => obj_member_lookup(ms, tokv) == Some(v.model()),
                        None => obj_member_lookup(ms, tokv) == obj_member_lookup(
                            ms.take(k as int),
                            tokv,
                        ),
                    },
                decreases k,
            {
                k = k - 1;
                proof {
                    assert(ms.take(k + 1).drop_last() =~= ms.take(k as int));
                    assert(ms.take(k + 1).last() == ms[k as int]);
                }
                if crate::text::str_eq(es[k].0.as_str(), tok.as_str()) {
                    found = Some(&es[k].1);
                }
            }
            match found {
                Some(v) => v,
                None => {
                    proof {
                        assert(ms.take(0) =~= Seq::<(Seq<char>, JsonModel)>::empty());
                        assert(obj_member_lookup(ms, tokv) == None::<JsonModel>);
                        assert(ptr_child(j.model(), tokv) == None::<JsonModel>);
                    }
                    return None;
                },
            }
        },
        Json::Arr(xs) => {
            let n = xs.len();
            proof {
                lemma_models_of(xs@, 0);
            }
            match parse_index_exec(tok.as_str()) {
                Some(ix) => {
                    if ix < n {
                        &xs[ix]
                    } else {
                        return None;
                    }
                },
                None => {
                    proof {
                        assert(n == xs@.len());
                        assert(ptr_child(j.model(), tokv) == None::<JsonModel>);
                    }
                    return None;
                },
            }
        },
        _ => {
            return None;
        },
    };
    if e == plen {
        Some(child)
    } else {
        pointer_steps(child, p, e + 1)
    }
}

/// Look a value up by JSON Pointer, as stored response extraction does.
pub fn pointer<'a>(j: &'a Json, p: &str) -> (r: Option<&'a Json>)
    ensures
        match r {
            Some(v) => ptr_lookup(j.model(), p@) == Some(v.model()),
            None => ptr_lookup(j.model(), p@) == None::<JsonModel>,
        },
{
    let plen = p.unicode_len();
    if plen == 0 {
        return Some(j);
    }
    if p.get_char(0) != '/' {
        return None;
    }
    pointer_steps(j, p, 1)
}

} // verus!
