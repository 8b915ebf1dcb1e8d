//! A small JSON reader for theme documents: objects, arrays, strings with
//! the common escapes, integers, booleans and null.  The specification
//! functions below are a recursive-descent reading of the grammar over the
//! character sequence; the executable parser is proved to return exactly
//! what they denote.
//!
//! Two deliberate restrictions, both diagnosed as errors rather than read
//! wrongly: numbers are integers of at most eighteen digits (theme documents
//! carry small color ids), and `\u` escapes are not decoded.

use crate::escape::push_char;
use vstd::prelude::*;
use vstd::string::StrSliceExecFns;

verus! {

broadcast use vstd::seq::axiom_seq_index_decreases, vstd::std_specs::vec::axiom_vec_decreases_to_view;

/// A JSON value.  Object members stay in document order, duplicates kept.
pub enum JsonValue {
    Null,
    Bool(bool),
    Int(i64),
    Str(String),
    Arr(Vec<JsonValue>),
    Obj(Vec<(String, JsonValue)>),
}

/// The mathematical shape of a JSON value.
pub enum JsonV {
    Null,
    Bool(bool),
    Int(int),
    Str(Seq<char>),
    Arr(Seq<JsonV>),
    Obj(Seq<(Seq<char>, JsonV)>),
}

/// One shape as a sequence.
pub open spec fn one_value(v: JsonV) -> Seq<JsonV> {
    seq![v]
}

/// One member shape as a sequence.
pub open spec fn one_member(kv: (Seq<char>, JsonV)) -> Seq<(Seq<char>, JsonV)> {
    seq![kv]
}

/// The shape a parsed value denotes.
pub open spec fn json_view(v: JsonValue) -> JsonV
    decreases v,
    via json_view_decreases
{
    match v {
        JsonValue::Null => JsonV::Null,
        JsonValue::Bool(b) => JsonV::Bool(b),
        JsonValue::Int(n) => JsonV::Int(n as int),
        JsonValue::Str(s) => JsonV::Str(s@),
        JsonValue::Arr(xs) => JsonV::Arr(arr_view(xs@)),
        JsonValue::Obj(ms) => JsonV::Obj(obj_view(ms@)),
    }
}

/// The shapes of a list of parsed values.
pub open spec fn arr_view(xs: Seq<JsonValue>) -> Seq<JsonV>
    decreases xs,
    via arr_view_decreases
{
    if xs.len() == 0 {
        Seq::empty()
    } else {
        one_value(json_view(xs[0])) + arr_view(xs.drop_first())
    }
}

/// The shapes of a list of parsed members.
pub open spec fn obj_view(ms: Seq<(String, JsonValue)>) -> Seq<(Seq<char>, JsonV)>
    decreases ms,
    via obj_view_decreases
{
    if ms.len() == 0 {
        Seq::empty()
    } else {
        one_member((ms[0].0@, json_view(ms[0].1))) + obj_view(ms.drop_first())
    }
}

#[via_fn]
proof fn json_view_decreases(v: JsonValue) {
    match v {
        JsonValue::Arr(xs) => {
            assert(decreases_to!(v => xs));
            assert(decreases_to!(xs => xs@));
        },
        JsonValue::Obj(ms) => {
            assert(decreases_to!(v => ms));
            assert(decreases_to!(ms => ms@));
        },
        _ => {},
    }
}

#[via_fn]
proof fn arr_view_decreases(xs: Seq<JsonValue>) {
    if xs.len() > 0 {
        assert(decreases_to!(xs => xs[0]));
        assert(decreases_to!(xs => xs.subrange(1, xs.len() as int)));
    }
}

#[via_fn]
proof fn obj_view_decreases(ms: Seq<(String, JsonValue)>) {
    if ms.len() > 0 {
        assert(decreases_to!(ms => ms[0]));
        assert(decreases_to!(ms[0] => ms[0].1));
        assert(decreases_to!(ms => ms.subrange(1, ms.len() as int)));
    }
}

impl View for JsonValue {
    type V = JsonV;

    open spec fn view(&self) -> JsonV {
        json_view(*self)
    }
}

// ---------------------------------------------------------------------------
// The grammar, read over the character sequence
// ---------------------------------------------------------------------------

/// JSON insignificant whitespace.
pub open spec fn is_json_ws(c: char) -> bool {
    c == ' ' || c == '\t' || c == '\n' || c == '\r'
}

/// A decimal digit.
pub open spec fn is_digit(c: char) -> bool {
    c == '0' || c == '1' || c == '2' || c == '3' || c == '4' || c == '5' || c == '6' || c == '7'
        || c == '8' || c == '9'
}

/// The value of a decimal digit.
pub open spec fn digit_val(c: char) -> int {
    if c == '0' {
        0
    } else if c == '1' {
        1
    } else if c == '2' {
        2
    } else if c == '3' {
        3
    } else if c == '4' {
        4
    } else if c == '5' {
        5
    } else if c == '6' {
        6
    } else if c == '7' {
        7
    } else if c == '8' {
        8
    } else {
        9
    }
}

/// The value of a run of decimal digits, most significant first.
pub open spec fn digits_val(ds: Seq<char>) -> int
    decreases ds.len(),
{
    if ds.len() == 0 {
        0
    } else {
        digits_val(ds.drop_last()) * 10 + digit_val(ds.last())
    }
}

/// The first position at or after `i` that does not hold whitespace.
pub open spec fn sp_ws(s: Seq<char>, i: int) -> int
    decreases s.len() - i,
{
    if 0 <= i < s.len() && is_json_ws(s[i]) {
        sp_ws(s, i + 1)
    } else {
        i
    }
}

/// The first position at or after `i` that does not hold a digit.
pub open spec fn digit_run_end(s: Seq<char>, i: int) -> int
    decreases s.len() - i,
{
    if 0 <= i < s.len() && is_digit(s[i]) {
        digit_run_end(s, i + 1)
    } else {
        i
    }
}

/// What a string escape character after a backslash stands for; `None` for
/// an escape this reader does not accept.
pub open spec fn esc_char(c: char) -> Option<char> {
    if c == '"' {
        Some('"')
    } else if c == '\\' {
        Some('\\')
    } else if c == '/' {
        Some('/')
    } else if c == 'b' {
        Some('\u{0008}')
    } else if c == 'f' {
        Some('\u{000C}')
    } else if c == 'n' {
        Some('\n')
    } else if c == 'r' {
        Some('\r')
    } else if c == 't' {
        Some('\t')
    } else {
        None
    }
}

/// One character as a sequence.
pub open spec fn one_char(c: char) -> Seq<char> {
    seq![c]
}

/// The body of a string, read from just after its opening quote: the
/// denoted characters and the position after the closing quote.  Raw
/// control characters and unknown escapes are malformed.
pub open spec fn sp_string(s: Seq<char>, i: int) -> Option<(Seq<char>, int)>
    decreases s.len() - i,
{
    if i < 0 || i >= s.len() {
        None
    } else if s[i] == '"' {
        Some((Seq::empty(), i + 1))
    } else if s[i] == '\\' {
        if i + 1 < s.len() {
            match esc_char(s[i + 1]) {
                Some(c) => match sp_string(s, i + 2) {
                    Some((rest, k)) => Some((one_char(c) + rest, k)),
                    None => None,
                },
                None => None,
            }
        } else {
            None
        }
    } else if (s[i] as u32) < 32 {
        None
    } else {
        match sp_string(s, i + 1) {
            Some((rest, k)) => Some((one_char(s[i]) + rest, k)),
            None => None,
        }
    }
}

/// Largest number of digits this reader accepts in an integer; everything
/// that fits stays well inside `i64`.
pub const MAX_INT_DIGITS: usize = 18;

/// An integer at `i`: an optional minus sign and a digit run without a
/// superfluous leading zero, of at most `MAX_INT_DIGITS` digits.
pub open spec fn sp_number(s: Seq<char>, i: int) -> Option<(int, int)> {
    if i < 0 || i >= s.len() {
        None
    } else {
        let neg = s[i] == '-';
        let d0 = if neg {
            i + 1
        } else {
            i
        };
        let d1 = digit_run_end(s, d0);
        if d1 == d0 {
            None
        } else if d1 - d0 > 1 && s[d0] == '0' {
            None
        } else if d1 - d0 > MAX_INT_DIGITS {
            None
        } else {
            let mag = digits_val(s.subrange(d0, d1));
            Some((if neg { -mag } else { mag }, d1))
        }
    }
}

/// The four keywords.
pub open spec fn word_true() -> Seq<char> {
    seq!['t', 'r', 'u', 'e']
}

pub open spec fn word_false() -> Seq<char> {
    seq!['f', 'a', 'l', 's', 'e']
}

pub open spec fn word_null() -> Seq<char> {
    seq!['n', 'u', 'l', 'l']
}

/// The word `w` stands at position `i`.
pub open spec fn word_at(s: Seq<char>, i: int, w: Seq<char>) -> bool {
    0 <= i && i + w.len() <= s.len() && s.subrange(i, i + w.len()) == w
}

/// A value starting at or after `i` (leading whitespace skipped): the shape
/// it denotes and the position just after it.  `fuel` bounds the reading
/// depth; the canonical amount in `json_fuel` is always enough.
pub open spec fn sp_value(s: Seq<char>, i: int, fuel: nat) -> Option<(JsonV, int)>
    decreases fuel,
{
    if fuel == 0 {
        None
    } else {
        let j = sp_ws(s, i);
        if j >= s.len() {
            None
        } else if s[j] == '{' {
            match sp_members(s, j + 1, (fuel - 1) as nat) {
                Some((ms, k)) => Some((JsonV::Obj(ms), k)),
                None => None,
            }
        } else if s[j] == '[' {
            match sp_elems(s, j + 1, (fuel - 1) as nat) {
                Some((xs, k)) => Some((JsonV::Arr(xs), k)),
                None => None,
            }
        } else if s[j] == '"' {
            match sp_string(s, j + 1) {
                Some((cs, k)) => Some((JsonV::Str(cs), k)),
                None => None,
            }
        } else if word_at(s, j, word_true()) {
            Some((JsonV::Bool(true), j + 4))
        } else if word_at(s, j, word_false()) {
            Some((JsonV::Bool(false), j + 5))
        } else if word_at(s, j, word_null()) {
            Some((JsonV::Null, j + 4))
        } else if s[j] == '-' || is_digit(s[j]) {
            match sp_number(s, j) {
                Some((n, k)) => Some((JsonV::Int(n), k)),
                None => None,
            }
        } else {
            None
        }
    }
}

/// The elements of an array, read from just after its `[`.
pub open spec fn sp_elems(s: Seq<char>, i: int, fuel: nat) -> Option<(Seq<JsonV>, int)>
    decreases fuel,
{
    if fuel == 0 {
        None
    } else {
        let j = sp_ws(s, i);
        if j < s.len() && s[j] == ']' {
            Some((Seq::empty(), j + 1))
        } else {
            match sp_value(s, i, (fuel - 1) as nat) {
                Some((v, k)) => match sp_elems_more(s, k, (fuel - 1) as nat) {
                    Some((rest, m)) => Some((seq![v] + rest, m)),
                    None => None,
                },
                None => None,
            }
        }
    }
}

/// The elements after the first: a comma and a value, until `]`.
pub open spec fn sp_elems_more(s: Seq<char>, i: int, fuel: nat) -> Option<(Seq<JsonV>, int)>
    decreases fuel,
{
    if fuel == 0 {
        None
    } else {
        let j = sp_ws(s, i);
        if j >= s.len() {
            None
        } else if s[j] == ']' {
            Some((Seq::empty(), j + 1))
        } else if s[j] == ',' {
            match sp_value(s, j + 1, (fuel - 1) as nat) {
                Some((v, k)) => match sp_elems_more(s, k, (fuel - 1) as nat) {
                    Some((rest, m)) => Some((seq![v] + rest, m)),
                    None => None,
                },
                None => None,
            }
        } else {
            None
        }
    }
}

/// The members of an object, read from just after its `{`.
pub open spec fn sp_members(s: Seq<char>, i: int, fuel: nat) -> Option<
    (Seq<(Seq<char>, JsonV)>, int),
>
    decreases fuel,
{
    if fuel == 0 {
        None
    } else {
        let j = sp_ws(s, i);
        if j < s.len() && s[j] == '}' {
            Some((Seq::empty(), j + 1))
        } else {
            match sp_member(s, i, (fuel - 1) as nat) {
                Some((kv, k)) => match sp_members_more(s, k, (fuel - 1) as nat) {
                    Some((rest, m)) => Some((seq![kv] + rest, m)),
                    None => None,
                },
                None => None,
            }
        }
    }
}

/// The members after the first: a comma and a member, until `}`.
pub open spec fn sp_members_more(s: Seq<char>, i: int, fuel: nat) -> Option<
    (Seq<(Seq<char>, JsonV)>, int),
>
    decreases fuel,
{
    if fuel == 0 {
        None
    } else {
        let j = sp_ws(s, i);
        if j >= s.len() {
            None
        } else if s[j] == '}' {
            Some((Seq::empty(), j + 1))
        } else if s[j] == ',' {
            match sp_member(s, j + 1, (fuel - 1) as nat) {
                Some((kv, k)) => match sp_members_more(s, k, (fuel - 1) as nat) {
                    Some((rest, m)) => Some((seq![kv] + rest, m)),
                    None => None,
                },
                None => None,
            }
        } else {
            None
        }
    }
}

/// One member: a string key, a colon, a value.
pub open spec fn sp_member(s: Seq<char>, i: int, fuel: nat) -> Option<((Seq<char>, JsonV), int)>
    decreases fuel,
{
    if fuel == 0 {
        None
    } else {
        let j = sp_ws(s, i);
        if j >= s.len() || s[j] != '"' {
            None
        } else {
            match sp_string(s, j + 1) {
                Some((key, k)) => {
                    let j2 = sp_ws(s, k);
                    if j2 >= s.len() || s[j2] != ':' {
                        None
                    } else {
                        match sp_value(s, j2 + 1, (fuel - 1) as nat) {
                            Some((v, m)) => Some(((key, v), m)),
                            None => None,
                        }
                    }
                },
                None => None,
            }
        }
    }
}

/// Reading depth that is always sufficient for a text of this length.
pub open spec fn json_fuel(s: Seq<char>) -> nat {
    (3 * s.len() + 6) as nat
}

/// What a whole document denotes: one value with nothing but whitespace
/// after it, or nothing when the text is malformed.
pub open spec fn spec_json(s: Seq<char>) -> Option<JsonV> {
    match sp_value(s, 0, json_fuel(s)) {
        Some((v, k)) => if sp_ws(s, k) == s.len() {
            Some(v)
        } else {
            None
        },
        None => None,
    }
}

// ---------------------------------------------------------------------------
// The executable parser
// ---------------------------------------------------------------------------

/// A syntax diagnostic: the position the reader gave up at.  The position is
/// for messages only; the contracts pin down exactly *whether* a text is
/// malformed, not where.
#[derive(Clone, Copy, Debug, PartialEq, Eq)]
pub struct JsonError {
    pub at: usize,
}

fn skip_ws(chars: &Vec<char>, i: usize) -> (r: usize)
    requires
        i <= chars@.len(),
    ensures
        r as int == sp_ws(chars@, i as int),
        i <= r <= chars@.len(),
{
    let n = chars.len();
    let mut j = i;
    while j < n && (chars[j] == ' ' || chars[j] == '\t' || chars[j] == '\n' || chars[j] == '\r')
        invariant
            n == chars@.len(),
            i <= j <= n,
            sp_ws(chars@, i as int) == sp_ws(chars@, j as int),
        decreases n - j,
    {
        j = j + 1;
    }
    proof {
        assert(sp_ws(chars@, j as int) == j);
    }
    j
}

fn is_digit_char(c: char) -> (r: bool)
    ensures
        r == is_digit(c),
{
    c == '0' || c == '1' || c == '2' || c == '3' || c == '4' || c == '5' || c == '6' || c == '7'
        || c == '8' || c == '9'
}

fn digit_value(c: char) -> (r: u8)
    requires
        is_digit(c),
    ensures
        r as int == digit_val(c),
{
    if c == '0' {
        0
    } else if c == '1' {
        1
    } else if c == '2' {
        2
    } else if c == '3' {
        3
    } else if c == '4' {
        4
    } else if c == '5' {
        5
    } else if c == '6' {
        6
    } else if c == '7' {
        7
    } else if c == '8' {
        8
    } else {
        9
    }
}

/// Ten to the `n`.
pub open spec fn pow10(n: nat) -> int
    decreases n,
{
    if n == 0 {
        1
    } else {
        10 * pow10((n - 1) as nat)
    }
}

proof fn lemma_digits_val_bound(ds: Seq<char>)
    ensures
        0 <= digits_val(ds) < pow10(ds.len()),
    decreases ds.len(),
{
    if ds.len() > 0 {
        lemma_digits_val_bound(ds.drop_last());
    }
}

proof fn lemma_pow10_mono(a: nat, b: nat)
    requires
        a <= b,
    ensures
        pow10(a) <= pow10(b),
    decreases b,
{
    if a < b {
        lemma_pow10_mono(a, (b - 1) as nat);
        lemma_pow10_pos((b - 1) as nat);
    }
}

proof fn lemma_pow10_pos(n: nat)
    ensures
        pow10(n) >= 1,
    decreases n,
{
    if n > 0 {
        lemma_pow10_pos((n - 1) as nat);
    }
}

proof fn lemma_pow10_18()
    ensures
        pow10(18) == 1000000000000000000,
{
    reveal_with_fuel(pow10, 20);
}

fn digit_run(chars: &Vec<char>, i: usize) -> (r: usize)
    requires
        i <= chars@.len(),
    ensures
        r as int == digit_run_end(chars@, i as int),
        i <= r <= chars@.len(),
{
    let n = chars.len();
    let mut j = i;
    while j < n && is_digit_char(chars[j])
        invariant
            n == chars@.len(),
            i <= j <= n,
            digit_run_end(chars@, i as int) == digit_run_end(chars@, j as int),
        decreases n - j,
    {
        j = j + 1;
    }
    proof {
        assert(digit_run_end(chars@, j as int) == j);
    }
    j
}

fn parse_number(chars: &Vec<char>, i: usize) -> (r: Result<(i64, usize), JsonError>)
    requires
        i < chars@.len(),
    ensures
        match r {
            Ok((v, k)) => sp_number(chars@, i as int) == Some((v as int, k as int)) && i < k
                <= chars@.len(),
            Err(_) => sp_number(chars@, i as int) is None,
        },
{
    let ghost s = chars@;
    let n = chars.len();
    let neg = chars[i] == '-';
    let d0 = if neg {
        i + 1
    } else {
        i
    };
    if d0 > n {
        return Err(JsonError { at: i });
    }
    let d1 = digit_run(chars, d0);
    if d1 == d0 {
        return Err(JsonError { at: d0 });
    }
    if d1 - d0 > 1 && chars[d0] == '0' {
        return Err(JsonError { at: d0 });
    }
    if d1 - d0 > MAX_INT_DIGITS {
        return Err(JsonError { at: d0 });
    }
    let ghost ds = s.subrange(d0 as int, d1 as int);
    let mut acc: i64 = 0;
    let mut t: usize = d0;
    proof {
        assert(ds.take(0) =~= Seq::<char>::empty());
        lemma_pow10_18();
        lemma_pow10_pos(18);
    }
    while t < d1
        invariant
            d0 <= t <= d1 <= n,
            n == s.len(),
            chars@ == s,
            d1 - d0 <= MAX_INT_DIGITS,
            ds == s.subrange(d0 as int, d1 as int),
            d1 as int == digit_run_end(s, d0 as int),
            acc as int == digits_val(ds.take(t - d0)),
            0 <= acc as int,
            (acc as int) < pow10((t - d0) as nat),
            pow10(18) == 1000000000000000000,
        decreases d1 - t,
    {
        proof {
            lemma_digit_run_digits(s, d0 as int, t as int);
            assert(ds.take(t - d0 + 1).drop_last() =~= ds.take(t - d0));
            assert(ds.take(t - d0 + 1).last() == s[t as int]);
            lemma_pow10_mono(((t - d0) as nat) + 1, 18);
        }
        let d = digit_value(chars[t]);
        acc = acc * 10 + (d as i64);
        t = t + 1;
    }
    proof {
        assert(ds.take(d1 - d0) =~= ds);
    }
    let value: i64 = if neg {
        -acc
    } else {
        acc
    };
    Ok((value, d1))
}

/// Every position of a digit run up to its end holds a digit.
proof fn lemma_digit_run_digits(s: Seq<char>, i: int, t: int)
    requires
        0 <= i <= t,
        t < digit_run_end(s, i),
    ensures
        t < s.len() && is_digit(s[t]),
    decreases t - i,
{
    if digit_run_end(s, i) > i {
        if t > i {
            lemma_digit_run_digits(s, i + 1, t);
        }
    }
}

fn parse_string_body(chars: &Vec<char>, i: usize) -> (r: Result<(String, usize), JsonError>)
    requires
        i <= chars@.len(),
    ensures
        match r {
            Ok((cs, k)) => sp_string(chars@, i as int) == Some((cs@, k as int)) && i < k
                <= chars@.len(),
            Err(_) => sp_string(chars@, i as int) is None,
        },
{
    let ghost s = chars@;
    let n = chars.len();
    let mut acc = String::new();
    let mut j = i;
    while j < n
        invariant
            i <= j <= n,
            n == s.len(),
            chars@ == s,
            forall|rest: Seq<char>, k: int|
                sp_string(s, j as int) == Some::<(Seq<char>, int)>((rest, k)) ==> sp_string(
                    s,
                    i as int,
                ) == Some::<(Seq<char>, int)>((acc@ + rest, k)),
            (sp_string(s, j as int) is None) ==> (sp_string(s, i as int) is None),
        decreases n - j,
    {
        let ghost acc_before = acc@;
        let c = chars[j];
        if c == '"' {
            proof {
                assert(sp_string(s, j as int) == Some::<(Seq<char>, int)>((
                    Seq::<char>::empty(),
                    j + 1,
                )));
                assert(acc@ + Seq::<char>::empty() =~= acc@);
            }
            return Ok((acc, j + 1));
        } else if c == '\\' {
            if j + 1 >= n {
                return Err(JsonError { at: j });
            }
            let e = chars[j + 1];
            let decoded: char = if e == '"' {
                '"'
            } else if e == '\\' {
                '\\'
            } else if e == '/' {
                '/'
            } else if e == 'b' {
                '\u{0008}'
            } else if e == 'f' {
                '\u{000C}'
            } else if e == 'n' {
                '\n'
            } else if e == 'r' {
                '\r'
            } else if e == 't' {
                '\t'
            } else {
                proof {
                    assert(esc_char(s[j + 1]) is None);
                    assert(sp_string(s, j as int) is None);
                }
                return Err(JsonError { at: j });
            };
            push_char(&mut acc, decoded);
            proof {
                assert(esc_char(s[j + 1]) == Some(decoded));
                assert forall|rest: Seq<char>, k: int|
                    sp_string(s, j + 2) == Some::<(Seq<char>, int)>((rest, k)) implies sp_string(
                    s,
                    i as int,
                ) == Some::<(Seq<char>, int)>((acc@ + rest, k)) by {
                    assert(sp_string(s, j as int) == Some::<(Seq<char>, int)>((
                        one_char(decoded) + rest,
                        k,
                    )));
                    assert(acc_before + (one_char(decoded) + rest) =~= acc@ + rest);
                }
            }
            j = j + 2;
        } else if (c as u32) < 32 {
            proof {
                assert(sp_string(s, j as int) is None);
            }
            return Err(JsonError { at: j });
        } else {
            push_char(&mut acc, c);
            proof {
                assert forall|rest: Seq<char>, k: int|
                    sp_string(s, j + 1) == Some::<(Seq<char>, int)>((rest, k)) implies sp_string(
                    s,
                    i as int,
                ) == Some::<(Seq<char>, int)>((acc@ + rest, k)) by {
                    assert(sp_string(s, j as int) == Some::<(Seq<char>, int)>((
                        one_char(s[j as int]) + rest,
                        k,
                    )));
                    assert(acc_before + (one_char(s[j as int]) + rest) =~= acc@ + rest);
                }
            }
            j = j + 1;
        }
    }
    proof {
        assert(sp_string(s, j as int) is None);
    }
    Err(JsonError { at: n })
}

proof fn lemma_not_word(s: Seq<char>, j: int, w: Seq<char>, d: int)
    requires
        0 <= j,
        0 <= d < w.len(),
        j + w.len() <= s.len() ==> s[j + d] != w[d],
    ensures
        !word_at(s, j, w),
{
    if j + w.len() <= s.len() {
        assert(s.subrange(j, j + w.len())[d] == s[j + d]);
    }
}

proof fn lemma_arr_view_snoc(xs: Seq<JsonValue>, v: JsonValue)
    ensures
        arr_view(xs.push(v)) == arr_view(xs) + one_value(json_view(v)),
    decreases xs.len(),
{
    if xs.len() == 0 {
        assert(xs.push(v)[0] == v);
        assert(xs.push(v).drop_first() =~= Seq::<JsonValue>::empty());
        assert(arr_view(Seq::<JsonValue>::empty()) == Seq::<JsonV>::empty());
        assert(arr_view(xs.push(v)) =~= arr_view(xs) + one_value(json_view(v)));
    } else {
        assert(xs.push(v)[0] == xs[0]);
        assert(xs.push(v).drop_first() =~= xs.drop_first().push(v));
        lemma_arr_view_snoc(xs.drop_first(), v);
        assert(arr_view(xs.push(v)) =~= arr_view(xs) + one_value(json_view(v)));
    }
}

proof fn lemma_obj_view_snoc(ms: Seq<(String, JsonValue)>, kv: (String, JsonValue))
    ensures
        obj_view(ms.push(kv)) == obj_view(ms) + one_member((kv.0@, json_view(kv.1))),
    decreases ms.len(),
{
    if ms.len() == 0 {
        assert(ms.push(kv)[0] == kv);
        assert(ms.push(kv).drop_first() =~= Seq::<(String, JsonValue)>::empty());
        assert(obj_view(Seq::<(String, JsonValue)>::empty()) == Seq::<(Seq<char>, JsonV)>::empty());
        assert(obj_view(ms.push(kv)) =~= obj_view(ms) + one_member((kv.0@, json_view(kv.1))));
    } else {
        assert(ms.push(kv)[0] == ms[0]);
        assert(ms.push(kv).drop_first() =~= ms.drop_first().push(kv));
        lemma_obj_view_snoc(ms.drop_first(), kv);
        assert(obj_view(ms.push(kv)) =~= obj_view(ms) + one_member((kv.0@, json_view(kv.1))));
    }
}

fn parse_value(chars: &Vec<char>, i: usize, Ghost(fuel): Ghost<nat>) -> (r: Result<
    (JsonValue, usize),
    JsonError,
>)
    requires
        i <= chars@.len(),
        fuel >= 3 * (chars@.len() - i) + 2,
    ensures
        match r {
            Ok((v, k)) => sp_value(chars@, i as int, fuel) == Some((v@, k as int)) && i < k
                <= chars@.len(),
            Err(_) => sp_value(chars@, i as int, fuel) is None,
        },
    decreases fuel,
{
    let ghost s = chars@;
    let n = chars.len();
    let j = skip_ws(chars, i);
    if j >= n {
        return Err(JsonError { at: j });
    }
    let c = chars[j];
    if c == '{' {
        match parse_members(chars, j + 1, Ghost((fuel - 1) as nat)) {
            Ok((ms, k)) => {
                let v = JsonValue::Obj(ms);
                proof {
                    assert(sp_value(s, i as int, fuel) == Some::<(JsonV, int)>((
                        v@,
                        k as int,
                    )));
                }
                Ok((v, k))
            },
            Err(e) => Err(e),
        }
    } else if c == '[' {
        match parse_elems(chars, j + 1, Ghost((fuel - 1) as nat)) {
            Ok((xs, k)) => {
                let v = JsonValue::Arr(xs);
                proof {
                    assert(sp_value(s, i as int, fuel) == Some::<(JsonV, int)>((
                        v@,
                        k as int,
                    )));
                }
                Ok((v, k))
            },
            Err(e) => Err(e),
        }
    } else if c == '"' {
        match parse_string_body(chars, j + 1) {
            Ok((cs, k)) => {
                let v = JsonValue::Str(cs);
                proof {
                    assert(sp_value(s, i as int, fuel) == Some::<(JsonV, int)>((
                        v@,
                        k as int,
                    )));
                }
                Ok((v, k))
            },
            Err(e) => Err(e),
        }
    } else if c == 't' {
        if n - j >= 4 && chars[j + 1] == 'r' && chars[j + 2] == 'u' && chars[j + 3] == 'e' {
            proof {
                assert(s.subrange(j as int, j + 4) =~= word_true());
                assert(word_at(s, j as int, word_true()));
            }
            Ok((JsonValue::Bool(true), j + 4))
        } else {
            proof {
                assert(!word_at(s, j as int, word_true())) by {
                    if j + 4 <= s.len() {
                        if s[j + 1] != 'r' {
                            lemma_not_word(s, j as int, word_true(), 1);
                        } else if s[j + 2] != 'u' {
                            lemma_not_word(s, j as int, word_true(), 2);
                        } else {
                            lemma_not_word(s, j as int, word_true(), 3);
                        }
                    }
                }
                lemma_not_word(s, j as int, word_false(), 0);
                lemma_not_word(s, j as int, word_null(), 0);
            }
            Err(JsonError { at: j })
        }
    } else if c == 'f' {
        proof {
            lemma_not_word(s, j as int, word_true(), 0);
        }
        if n - j >= 5 && chars[j + 1] == 'a' && chars[j + 2] == 'l' && chars[j + 3] == 's'
            && chars[j + 4] == 'e' {
            proof {
                assert(s.subrange(j as int, j + 5) =~= word_false());
                assert(word_at(s, j as int, word_false()));
            }
            Ok((JsonValue::Bool(false), j + 5))
        } else {
            proof {
                assert(!word_at(s, j as int, word_false())) by {
                    if j + 5 <= s.len() {
                        if s[j + 1] != 'a' {
                            lemma_not_word(s, j as int, word_false(), 1);
                        } else if s[j + 2] != 'l' {
                            lemma_not_word(s, j as int, word_false(), 2);
                        } else if s[j + 3] != 's' {
                            lemma_not_word(s, j as int, word_false(), 3);
                        } else {
                            lemma_not_word(s, j as int, word_false(), 4);
                        }
                    }
                }
                lemma_not_word(s, j as int, word_null(), 0);
            }
            Err(JsonError { at: j })
        }
    } else if c == 'n' {
        proof {
            lemma_not_word(s, j as int, word_true(), 0);
            lemma_not_word(s, j as int, word_false(), 0);
        }
        if n - j >= 4 && chars[j + 1] == 'u' && chars[j + 2] == 'l' && chars[j + 3] == 'l' {
            proof {
                assert(s.subrange(j as int, j + 4) =~= word_null());
                assert(word_at(s, j as int, word_null()));
            }
            Ok((JsonValue::Null, j + 4))
        } else {
            proof {
                assert(!word_at(s, j as int, word_null())) by {
                    if j + 4 <= s.len() {
                        if s[j + 1] != 'u' {
                            lemma_not_word(s, j as int, word_null(), 1);
                        } else if s[j + 2] != 'l' {
                            lemma_not_word(s, j as int, word_null(), 2);
                        } else {
                            lemma_not_word(s, j as int, word_null(), 3);
                        }
                    }
                }
            }
            Err(JsonError { at: j })
        }
    } else if c == '-' || is_digit_char(c) {
        proof {
            lemma_not_word(s, j as int, word_true(), 0);
            lemma_not_word(s, j as int, word_false(), 0);
            lemma_not_word(s, j as int, word_null(), 0);
        }
        match parse_number(chars, j) {
            Ok((v, k)) => {
                let value = JsonValue::Int(v);
                proof {
                    assert(sp_value(s, i as int, fuel) == Some::<(JsonV, int)>((
                        value@,
                        k as int,
                    )));
                }
                Ok((value, k))
            },
            Err(e) => Err(e),
        }
    } else {
        proof {
            lemma_not_word(s, j as int, word_true(), 0);
            lemma_not_word(s, j as int, word_false(), 0);
            lemma_not_word(s, j as int, word_null(), 0);
        }
        Err(JsonError { at: j })
    }
}

fn parse_elems(chars: &Vec<char>, i: usize, Ghost(fuel): Ghost<nat>) -> (r: Result<
    (Vec<JsonValue>, usize),
    JsonError,
>)
    requires
        i <= chars@.len(),
        fuel >= 3 * (chars@.len() - i) + 4,
    ensures
        match r {
            Ok((xs, k)) => sp_elems(chars@, i as int, fuel) == Some((arr_view(xs@), k as int)) && i
                < k <= chars@.len(),
            Err(_) => sp_elems(chars@, i as int, fuel) is None,
        },
    decreases fuel,
{
    let ghost s = chars@;
    let n = chars.len();
    let j = skip_ws(chars, i);
    if j < n && chars[j] == ']' {
        let out: Vec<JsonValue> = Vec::new();
        proof {
            assert(arr_view(out@) == Seq::<JsonV>::empty());
        }
        return Ok((out, j + 1));
    }
    match parse_value(chars, i, Ghost((fuel - 1) as nat)) {
        Ok((v, k)) => {
            let ghost vv = v@;
            let mut out: Vec<JsonValue> = Vec::new();
            let ghost empty_out = out@;
            out.push(v);
            proof {
                assert(empty_out =~= Seq::<JsonValue>::empty());
                lemma_arr_view_snoc(empty_out, out@[0]);
                assert(arr_view(empty_out) == Seq::<JsonV>::empty());
                assert(arr_view(out@) =~= one_value(vv));
            }
            match parse_elems_more(chars, k, Ghost((fuel - 1) as nat), &mut out) {
                Ok(m) => {
                    proof {
                        let tail = sp_elems_more(s, k as int, (fuel - 1) as nat)->Some_0.0;
                        assert(arr_view(out@) =~= one_value(vv) + tail);
                        assert(sp_elems(s, i as int, fuel) == Some::<(Seq<JsonV>, int)>((
                            one_value(vv) + tail,
                            m as int,
                        )));
                    }
                    Ok((out, m))
                },
                Err(e) => Err(e),
            }
        },
        Err(e) => Err(e),
    }
}

fn parse_elems_more(
    chars: &Vec<char>,
    i: usize,
    Ghost(fuel): Ghost<nat>,
    out: &mut Vec<JsonValue>,
) -> (r: Result<usize, JsonError>)
    requires
        i <= chars@.len(),
        fuel >= 3 * (chars@.len() - i) + 4,
    ensures
        match r {
            Ok(m) => match sp_elems_more(chars@, i as int, fuel) {
                Some((tail, mm)) => arr_view(final(out)@) == arr_view(old(out)@) + tail && mm == m
                    && i < m <= chars@.len(),
                None => false,
            },
            Err(_) => sp_elems_more(chars@, i as int, fuel) is None,
        },
    decreases fuel,
{
    let ghost s = chars@;
    let n = chars.len();
    let j = skip_ws(chars, i);
    if j >= n {
        return Err(JsonError { at: j });
    }
    if chars[j] == ']' {
        proof {
            assert(arr_view(out@) + Seq::<JsonV>::empty() =~= arr_view(out@));
        }
        return Ok(j + 1);
    }
    if chars[j] == ',' {
        match parse_value(chars, j + 1, Ghost((fuel - 1) as nat)) {
            Ok((v, k)) => {
                let ghost vv = v@;
                let ghost out_before = out@;
                out.push(v);
                proof {
                    lemma_arr_view_snoc(out_before, out@.last());
                    assert(arr_view(out@) =~= arr_view(out_before) + one_value(vv));
                }
                let ghost out_mid = out@;
                match parse_elems_more(chars, k, Ghost((fuel - 1) as nat), out) {
                    Ok(m) => {
                        proof {
                            let tail = sp_elems_more(s, k as int, (fuel - 1) as nat)->Some_0.0;
                            assert(arr_view(out@) =~= (arr_view(out_before) + one_value(vv))
                                + tail);
                            assert((arr_view(out_before) + one_value(vv)) + tail =~= arr_view(
                                out_before,
                            ) + (one_value(vv) + tail));
                            assert(sp_elems_more(s, i as int, fuel) == Some::<(Seq<JsonV>, int)>((
                                one_value(vv) + tail,
                                m as int,
                            )));
                        }
                        Ok(m)
                    },
                    Err(e) => Err(e),
                }
            },
            Err(e) => Err(e),
        }
    } else {
        Err(JsonError { at: j })
    }
}

fn parse_member(chars: &Vec<char>, i: usize, Ghost(fuel): Ghost<nat>) -> (r: Result<
    ((String, JsonValue), usize),
    JsonError,
>)
    requires
        i <= chars@.len(),
        fuel >= 3 * (chars@.len() - i) + 3,
    ensures
        match r {
            Ok((kv, k)) => sp_member(chars@, i as int, fuel) == Some((
                (kv.0@, kv.1@),
                k as int,
            )) && i < k <= chars@.len(),
            Err(_) => sp_member(chars@, i as int, fuel) is None,
        },
    decreases fuel,
{
    let ghost s = chars@;
    let n = chars.len();
    let j = skip_ws(chars, i);
    if j >= n {
        return Err(JsonError { at: j });
    }
    if chars[j] != '"' {
        return Err(JsonError { at: j });
    }
    match parse_string_body(chars, j + 1) {
        Ok((key, k)) => {
            let j2 = skip_ws(chars, k);
            if j2 >= n {
                return Err(JsonError { at: j2 });
            }
            if chars[j2] != ':' {
                return Err(JsonError { at: j2 });
            }
            match parse_value(chars, j2 + 1, Ghost((fuel - 1) as nat)) {
                Ok((v, m)) => {
                    proof {
                        assert(sp_member(s, i as int, fuel) == Some::<((Seq<char>, JsonV), int)>((
                            (key@, v@),
                            m as int,
                        )));
                    }
                    Ok(((key, v), m))
                },
                Err(e) => Err(e),
            }
        },
        Err(e) => Err(e),
    }
}

fn parse_members(chars: &Vec<char>, i: usize, Ghost(fuel): Ghost<nat>) -> (r: Result<
    (Vec<(String, JsonValue)>, usize),
    JsonError,
>)
    requires
        i <= chars@.len(),
        fuel >= 3 * (chars@.len() - i) + 4,
    ensures
        match r {
            Ok((ms, k)) => sp_members(chars@, i as int, fuel) == Some((obj_view(ms@), k as int))
                && i < k <= chars@.len(),
            Err(_) => sp_members(chars@, i as int, fuel) is None,
        },
    decreases fuel,
{
    let ghost s = chars@;
    let n = chars.len();
    let j = skip_ws(chars, i);
    if j < n && chars[j] == '}' {
        let out: Vec<(String, JsonValue)> = Vec::new();
        proof {
            assert(obj_view(out@) == Seq::<(Seq<char>, JsonV)>::empty());
        }
        return Ok((out, j + 1));
    }
    match parse_member(chars, i, Ghost((fuel - 1) as nat)) {
        Ok((kv, k)) => {
            let ghost kvv = (kv.0@, kv.1@);
            let mut out: Vec<(String, JsonValue)> = Vec::new();
            let ghost empty_out = out@;
            out.push(kv);
            proof {
                assert(empty_out =~= Seq::<(String, JsonValue)>::empty());
                lemma_obj_view_snoc(empty_out, out@[0]);
                assert(obj_view(empty_out) == Seq::<(Seq<char>, JsonV)>::empty());
                assert(obj_view(out@) =~= one_member(kvv));
            }
            match parse_members_more(chars, k, Ghost((fuel - 1) as nat), &mut out) {
                Ok(m) => {
                    proof {
                        let tail = sp_members_more(s, k as int, (fuel - 1) as nat)->Some_0.0;
                        assert(obj_view(out@) =~= one_member(kvv) + tail);
                        assert(sp_members(s, i as int, fuel) == Some::<
                            (Seq<(Seq<char>, JsonV)>, int),
                        >((one_member(kvv) + tail, m as int)));
                    }
                    Ok((out, m))
                },
                Err(e) => Err(e),
            }
        },
        Err(e) => Err(e),
    }
}

fn parse_members_more(
    chars: &Vec<char>,
    i: usize,
    Ghost(fuel): Ghost<nat>,
    out: &mut Vec<(String, JsonValue)>,
) -> (r: Result<usize, JsonError>)
    requires
        i <= chars@.len(),
        fuel >= 3 * (chars@.len() - i) + 4,
    ensures
        match r {
            Ok(m) => match sp_members_more(chars@, i as int, fuel) {
                Some((tail, mm)) => obj_view(final(out)@) == obj_view(old(out)@) + tail && mm == m
                    && i < m <= chars@.len(),
                None => false,
            },
            Err(_) => sp_members_more(chars@, i as int, fuel) is None,
        },
    decreases fuel,
{
    let ghost s = chars@;
    let n = chars.len();
    let j = skip_ws(chars, i);
    if j >= n {
        return Err(JsonError { at: j });
    }
    if chars[j] == '}' {
        proof {
            assert(obj_view(out@) + Seq::<(Seq<char>, JsonV)>::empty() =~= obj_view(out@));
        }
        return Ok(j + 1);
    }
    if chars[j] == ',' {
        match parse_member(chars, j + 1, Ghost((fuel - 1) as nat)) {
            Ok((kv, k)) => {
                let ghost kvv = (kv.0@, kv.1@);
                let ghost out_before = out@;
                out.push(kv);
                proof {
                    lemma_obj_view_snoc(out_before, out@.last());
                    assert(obj_view(out@) =~= obj_view(out_before) + one_member(kvv));
                }
                match parse_members_more(chars, k, Ghost((fuel - 1) as nat), out) {
                    Ok(m) => {
                        proof {
                            let tail = sp_members_more(s, k as int, (fuel - 1) as nat)->Some_0.0;
                            assert(obj_view(out@) =~= (obj_view(out_before) + one_member(kvv))
                                + tail);
                            assert((obj_view(out_before) + one_member(kvv)) + tail =~= obj_view(
                                out_before,
                            ) + (one_member(kvv) + tail));
                            assert(sp_members_more(s, i as int, fuel) == Some::<
                                (Seq<(Seq<char>, JsonV)>, int),
                            >((one_member(kvv) + tail, m as int)));
                        }
                        Ok(m)
                    },
                    Err(e) => Err(e),
                }
            },
            Err(e) => Err(e),
        }
    } else {
        Err(JsonError { at: j })
    }
}

/// Reads a whole JSON document: one value with nothing but whitespace after
/// it.  Returns exactly the shape `spec_json` denotes, and an error exactly
/// when the text is malformed.
pub fn parse(text: &str) -> (r: Result<JsonValue, JsonError>)
    ensures
        match r {
            Ok(v) => spec_json(text@) == Some(v@),
            Err(_) => spec_json(text@) is None,
        },
{
    let chars = crate::scan::str_chars(text);
    let n = chars.len();
    match parse_value(&chars, 0, Ghost(json_fuel(text@))) {
        Ok((v, k)) => {
            let k2 = skip_ws(&chars, k);
            if k2 == n {
                Ok(v)
            } else {
                Err(JsonError { at: k2 })
            }
        },
        Err(e) => Err(e),
    }
}

} // verus!
