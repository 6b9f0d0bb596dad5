use vstd::prelude::*;
use vstd::string::*;
use crate::text::{decimal, push_decimal, push_str, chars_of, chars_to_string, is_decimal_digit,
    lemma_decimal_digits, lemma_decimal_injective, lemma_digit_run_split};

verus! {

/// The characters that `char::is_whitespace` accepts: those with the Unicode
/// `White_Space` property.
pub open spec fn is_white_space(c: char) -> bool {
    let x = c as u32;
    ||| 0x09 <= x <= 0x0d
    ||| x == 0x20
    ||| x == 0x85
    ||| x == 0xa0
    ||| x == 0x1680
    ||| 0x2000 <= x <= 0x200a
    ||| x == 0x2028
    ||| x == 0x2029
    ||| x == 0x202f
    ||| x == 0x205f
    ||| x == 0x3000
}

pub(crate) fn white_space(c: char) -> (b: bool)
    ensures
        b == is_white_space(c),
{
    let x = c as u32;
    (0x09 <= x && x <= 0x0d) || x == 0x20 || x == 0x85 || x == 0xa0 || x == 0x1680 || (0x2000
        <= x && x <= 0x200a) || x == 0x2028 || x == 0x2029 || x == 0x202f || x == 0x205f || x
        == 0x3000
}

/// `s` without leading white space.
pub open spec fn trim_start(s: Seq<char>) -> Seq<char>
    decreases s.len(),
{
    if s.len() > 0 && is_white_space(s[0]) {
        trim_start(s.drop_first())
    } else {
        s
    }
}

/// `s` without trailing white space.
pub open spec fn trim_end(s: Seq<char>) -> Seq<char>
    decreases s.len(),
{
    if s.len() > 0 && is_white_space(s.last()) {
        trim_end(s.drop_last())
    } else {
        s
    }
}

/// `s` without leading or trailing white space, as `str::trim` gives it.
pub open spec fn trim(s: Seq<char>) -> Seq<char> {
    trim_end(trim_start(s))
}

/// The parts of `s` before and after the first `c`, if `s` holds one.
pub open spec fn split_once(s: Seq<char>, c: char) -> Option<(Seq<char>, Seq<char>)>
    decreases s.len(),
{
    if s.len() == 0 {
        None
    } else if s[0] == c {
        Some((seq![], s.drop_first()))
    } else {
        match split_once(s.drop_first(), c) {
            Some((a, b)) => Some((seq![s[0]] + a, b)),
            None => None,
        }
    }
}

/// The pieces of `s` between the occurrences of `c`, as `str::split` gives them.
pub open spec fn split_by(s: Seq<char>, c: char) -> Seq<Seq<char>>
    decreases s.len(),
{
    if s.len() == 0 {
        seq![seq![]]
    } else if s[0] == c {
        seq![seq![]] + split_by(s.drop_first(), c)
    } else {
        let r = split_by(s.drop_first(), c);
        r.update(0, seq![s[0]] + r[0])
    }
}

/// The value of the first `key=value` piece among `parts` whose key is `key`.
pub open spec fn lookup_param(parts: Seq<Seq<char>>, key: Seq<char>) -> Option<Seq<char>>
    decreases parts.len(),
{
    if parts.len() == 0 {
        None
    } else {
        match split_once(parts[0], '=') {
            Some((k, v)) => if k == key {
                Some(v)
            } else {
                lookup_param(parts.drop_first(), key)
            },
            None => lookup_param(parts.drop_first(), key),
        }
    }
}

proof fn lemma_split_once_at(s: Seq<char>, c: char, i: int)
    requires
        0 <= i < s.len(),
        s[i] == c,
        forall|j: int| 0 <= j < i ==> s[j] != c,
    ensures
        split_once(s, c) == Some((s.take(i), s.skip(i + 1))),
    decreases s.len(),
{
    if i > 0 {
        lemma_split_once_at(s.drop_first(), c, i - 1);
        assert(seq![s[0]] + s.drop_first().take(i - 1) =~= s.take(i));
        assert(s.drop_first().skip(i) =~= s.skip(i + 1));
    } else {
        assert(s.take(0) =~= seq![]);
        assert(s.skip(1) =~= s.drop_first());
    }
}

proof fn lemma_split_once_none(s: Seq<char>, c: char)
    requires
        forall|j: int| 0 <= j < s.len() ==> s[j] != c,
    ensures
        split_once(s, c) is None,
    decreases s.len(),
{
    if s.len() > 0 {
        lemma_split_once_none(s.drop_first(), c);
    }
}

proof fn lemma_split_by_at(s: Seq<char>, c: char, i: int)
    requires
        0 <= i < s.len(),
        s[i] == c,
        forall|j: int| 0 <= j < i ==> s[j] != c,
    ensures
        split_by(s, c) == seq![s.take(i)] + split_by(s.skip(i + 1), c),
    decreases s.len(),
{
    if i > 0 {
        lemma_split_by_at(s.drop_first(), c, i - 1);
        assert(s.drop_first().skip(i) =~= s.skip(i + 1));
        assert(seq![s[0]] + s.drop_first().take(i - 1) =~= s.take(i));
        let r = split_by(s.drop_first(), c);
        assert(r.update(0, seq![s[0]] + r[0]) =~= seq![s.take(i)] + split_by(s.skip(i + 1), c));
    } else {
        assert(s.take(0) =~= seq![]);
        assert(s.skip(1) =~= s.drop_first());
    }
}

proof fn lemma_split_by_none(s: Seq<char>, c: char)
    requires
        forall|j: int| 0 <= j < s.len() ==> s[j] != c,
    ensures
        split_by(s, c) == seq![s],
    decreases s.len(),
{
    if s.len() > 0 {
        lemma_split_by_none(s.drop_first(), c);
        assert(seq![s[0]] + s.drop_first() =~= s);
        assert(seq![s.drop_first()].update(0, seq![s[0]] + s.drop_first()) =~= seq![s]);
    } else {
        assert(s =~= seq![]);
    }
}

/// The first position at or after `from` and before `to` that holds `c`, or `to`.
fn find_char(s: &Vec<char>, c: char, from: usize, to: usize) -> (pos: usize)
    requires
        from <= to <= s@.len(),
    ensures
        from <= pos <= to,
        forall|j: int| from <= j < pos ==> s@[j] != c,
        pos < to ==> s@[pos as int] == c,
{
    let mut i = from;
    while i < to
        invariant
            from <= i <= to,
            to <= s@.len(),
            forall|j: int| from <= j < i ==> s@[j] != c,
        decreases to - i,
    {
        if s[i] == c {
            return i;
        }
        i = i + 1;
    }
    i
}

/// Whether `s[from..to]` equals `t`.
fn range_equals(s: &Vec<char>, from: usize, to: usize, t: &Vec<char>) -> (b: bool)
    requires
        from <= to <= s@.len(),
    ensures
        b == (s@.subrange(from as int, to as int) == t@),
{
    if to - from != t.len() {
        return false;
    }
    let mut i: usize = 0;
    while i < t.len()
        invariant
            to - from == t@.len(),
            to <= s@.len(),
            i <= t@.len(),
            forall|j: int| 0 <= j < i ==> s@[from + j] == t@[j],
        decreases t@.len() - i,
    {
        if s[from + i] != t[i] {
            assert(s@.subrange(from as int, to as int)[i as int] != t@[i as int]);
            return false;
        }
        i = i + 1;
    }
    assert(s@.subrange(from as int, to as int) =~= t@);
    true
}

/// The value of the parameter `key` in a list of `key=value` pieces separated
/// by `:`; the first piece with that key counts.
pub fn parse_param<'a>(params: &'a str, key: &str) -> (res: Result<&'a str, String>)
    ensures
        match res {
            Ok(v) => lookup_param(split_by(params@, ':'), key@) == Some(v@),
            Err(e) => lookup_param(split_by(params@, ':'), key@) is None
                && e@ == seq!['m', 'i', 's', 's', 'i', 'n', 'g', ' ', 'p', 'a', 'r', 'a', 'm', 'e', 't', 'e', 'r', ' ', '\'']
                + key@ + seq!['\''],
        },
{
    let s = chars_of(params);
    let k = chars_of(key);
    let len = s.len();
    let mut a: usize = 0;
    assert(s@.skip(0) =~= s@);
    loop
        invariant
            s@ == params@,
            k@ == key@,
            len == s@.len(),
            a <= len,
            lookup_param(split_by(params@, ':'), key@) == lookup_param(split_by(s@.skip(a as int), ':'), key@),
        decreases len - a,
    {
        let b = find_char(&s, ':', a, len);
        let e = find_char(&s, '=', a, b);
        let ghost rest = s@.skip(a as int);
        let ghost part = s@.subrange(a as int, b as int);
        proof {
            if b < len {
                lemma_split_by_at(rest, ':', b - a);
            } else {
                lemma_split_by_none(rest, ':');
            }
            assert(rest.take(b - a) =~= part);
            assert(split_by(rest, ':')[0] == part);
            if e < b {
                lemma_split_once_at(part, '=', e - a);
                assert(part.take(e - a) =~= s@.subrange(a as int, e as int));
                assert(part.skip(e - a + 1) =~= s@.subrange(e + 1, b as int));
            } else {
                lemma_split_once_none(part, '=');
            }
        }
        if e < b && range_equals(&s, a, e, &k) {
            let v = params.substring_char(e + 1, b);
            return Ok(v);
        }
        if b == len {
            proof {
                assert(split_by(rest, ':').drop_first() =~= seq![]);
                assert(lookup_param(split_by(rest, ':').drop_first(), key@) is None);
                assert(lookup_param(split_by(rest, ':'), key@) is None);
            }
            let mut msg: Vec<char> = Vec::new();
            push_str(&mut msg, "missing parameter '");
            push_str(&mut msg, key);
            msg.push('\'');
            proof {
                reveal_strlit("missing parameter '");
                assert(msg@ =~= seq!['m', 'i', 's', 's', 'i', 'n', 'g', ' ', 'p', 'a', 'r', 'a', 'm', 'e', 't', 'e', 'r', ' ', '\'']
                    + key@ + seq!['\'']);
            }
            return Err(chars_to_string(&msg));
        }
        proof {
            assert(rest.skip(b - a + 1) =~= s@.skip(b + 1));
            assert(split_by(rest, ':').drop_first() =~= split_by(s@.skip(b + 1), ':'));
        }
        a = b + 1;
    }
}


/// ASCII letters, digits, `_` and `-` stay in a file name.
pub open spec fn is_name_char(c: char) -> bool {
    ||| ('0' <= c <= '9')
    ||| ('a' <= c <= 'z')
    ||| ('A' <= c <= 'Z')
    ||| c == '_'
    ||| c == '-'
}

/// `name` with every character that cannot stay in a file name replaced by `_`.
pub open spec fn spec_sanitize(name: Seq<char>) -> Seq<char> {
    Seq::new(name.len(), |i: int| if is_name_char(name[i]) { name[i] } else { '_' })
}

fn push_sanitized(out: &mut Vec<char>, name: &str)
    ensures
        final(out)@ == old(out)@ + spec_sanitize(name@),
{
    let chars = chars_of(name);
    let mut i: usize = 0;
    while i < chars.len()
        invariant
            chars@ == name@,
            i <= chars@.len(),
            out@ == old(out)@ + spec_sanitize(name@).take(i as int),
        decreases chars@.len() - i,
    {
        let c = chars[i];
        let keep = ('0' <= c && c <= '9') || ('a' <= c && c <= 'z') || ('A' <= c && c <= 'Z') || c
            == '_' || c == '-';
        if keep {
            out.push(c);
        } else {
            out.push('_');
        }
        i = i + 1;
        assert(out@ =~= old(out)@ + spec_sanitize(name@).take(i as int));
    }
    assert(spec_sanitize(name@).take(i as int) =~= spec_sanitize(name@));
}

/// `name` with every character other than ASCII letters, digits, `_` and `-`
/// replaced by `_`, so that it can stand in a file name.
pub fn sanitize(name: &str) -> (res: String)
    ensures
        res@ == spec_sanitize(name@),
{
    let mut out: Vec<char> = Vec::new();
    push_sanitized(&mut out, name);
    assert(out@ =~= spec_sanitize(name@));
    chars_to_string(&out)
}

/// A decimal digit character.
pub open spec fn is_digit(c: char) -> bool {
    '0' <= c <= '9'
}

/// The number that a string of decimal digits denotes.
pub open spec fn decimal_value(d: Seq<char>) -> nat
    decreases d.len(),
{
    if d.len() == 0 {
        0
    } else {
        decimal_value(d.drop_last()) * 10 + ((d.last() as u32) - 48) as nat
    }
}

/// `t` without one leading `+`.
pub open spec fn unsigned_part(t: Seq<char>) -> Seq<char> {
    if t.len() > 0 && t[0] == '+' {
        t.drop_first()
    } else {
        t
    }
}

/// Every character of `d` is a decimal digit.
pub open spec fn all_digits(d: Seq<char>) -> bool {
    forall|i: int| 0 <= i < d.len() ==> #[trigger] is_digit(d[i])
}

/// What `str::parse::<usize>` gives: an optional `+`, then at least one
/// decimal digit and nothing else, denoting a value that fits.
pub open spec fn spec_parse_usize(t: Seq<char>) -> Option<usize> {
    let d = unsigned_part(t);
    if d.len() > 0 && all_digits(d) && decimal_value(d) <= usize::MAX {
        Some(decimal_value(d) as usize)
    } else {
        None
    }
}

proof fn lemma_decimal_value_prefix(d: Seq<char>, i: int)
    requires
        0 <= i <= d.len(),
        forall|j: int| 0 <= j < d.len() ==> #[trigger] is_digit(d[j]),
    ensures
        decimal_value(d.take(i)) <= decimal_value(d),
    decreases d.len() - i,
{
    if i < d.len() {
        lemma_decimal_value_prefix(d, i + 1);
        assert(d.take(i + 1).drop_last() =~= d.take(i));
    } else {
        assert(d.take(i) =~= d);
    }
}

/// Parses `chars[from..to]` as `str::parse::<usize>` does.
pub fn parse_usize_range(chars: &Vec<char>, from: usize, to: usize) -> (res: Option<usize>)
    requires
        from <= to <= chars@.len(),
    ensures
        res == spec_parse_usize(chars@.subrange(from as int, to as int)),
{
    let ghost t = chars@.subrange(from as int, to as int);
    let start: usize = if from < to && chars[from] == '+' { from + 1 } else { from };
    let ghost d = unsigned_part(t);
    assert(d =~= chars@.subrange(start as int, to as int));
    if start >= to {
        return None;
    }
    let mut value: usize = 0;
    let mut i: usize = start;
    while i < to
        invariant
            from <= start <= i <= to,
            to <= chars@.len(),
            t == chars@.subrange(from as int, to as int),
            d == chars@.subrange(start as int, to as int),
            d == unsigned_part(t),
            forall|j: int| 0 <= j < i - start ==> #[trigger] is_digit(d[j]),
            value == decimal_value(d.take(i - start)),
        decreases to - i,
    {
        let c = chars[i];
        assert(d[i - start] == c);
        if !('0' <= c && c <= '9') {
            assert(!is_digit(d[i - start]));
            assert(!all_digits(d));
            return None;
        }
        let digit = (c as u32 - 48) as usize;
        assert(d.take(i - start + 1).drop_last() =~= d.take(i - start));
        match value.checked_mul(10) {
            Some(v10) => match v10.checked_add(digit) {
                Some(v) => {
                    value = v;
                },
                None => {
                    proof {
                        let k = (i - start) as int;
                        assert(d.take(k + 1).last() == c);
                        assert(decimal_value(d.take(k + 1)) == value * 10 + digit);
                        if all_digits(d) {
                            lemma_decimal_value_prefix(d, k + 1);
                        }
                    }
                    return None;
                },
            },
            None => {
                proof {
                    let k = (i - start) as int;
                    if all_digits(d) {
                        lemma_decimal_value_prefix(d, k + 1);
                    }
                }
                return None;
            },
        }
        i = i + 1;
    }
    assert(d.take(i - start) =~= d);
    Some(value)
}

/// Parses a decimal `usize` as `str::parse::<usize>` does.
pub fn parse_usize(t: &str) -> (res: Option<usize>)
    ensures
        res == spec_parse_usize(t@),
{
    let chars = chars_of(t);
    assert(chars@.subrange(0, chars@.len() as int) =~= t@);
    parse_usize_range(&chars, 0, chars.len())
}

/// Number of consecutive decimal digits in `t` from position `i` on.
pub open spec fn digit_run(t: Seq<char>, i: int) -> nat
    decreases t.len() - i,
{
    if 0 <= i < t.len() && is_digit(t[i]) {
        1 + digit_run(t, i + 1)
    } else {
        0
    }
}

/// `t[p..]` is an exponent: `e` or `E`, an optional sign, at least one digit.
pub open spec fn is_exponent(t: Seq<char>, p: int) -> bool {
    &&& 0 <= p < t.len()
    &&& (t[p] == 'e' || t[p] == 'E')
    &&& {
        let q = if p + 1 < t.len() && (t[p + 1] == '+' || t[p + 1] == '-') {
            p + 2
        } else {
            p + 1
        };
        q < t.len() && q + digit_run(t, q) == t.len()
    }
}

/// `t[p..]` is a decimal number: digits with an optional fraction (at least
/// one digit before or after the point), then an optional exponent.
pub open spec fn is_number(t: Seq<char>, p: int) -> bool {
    let a = digit_run(t, p);
    let i1 = p + a;
    if i1 < t.len() && t[i1] == '.' {
        let b = digit_run(t, i1 + 1);
        let i2 = i1 + 1 + b;
        (a > 0 || b > 0) && (i2 == t.len() || is_exponent(t, i2))
    } else {
        a > 0 && (i1 == t.len() || is_exponent(t, i1))
    }
}

/// ASCII letters in lower case; other characters unchanged.
pub open spec fn ascii_lower(c: char) -> char {
    if 'A' <= c <= 'Z' {
        ((c as u32) + 32) as char
    } else {
        c
    }
}

/// `u` equals the lower-case word `w` up to ASCII case.
pub open spec fn equals_ignoring_case(u: Seq<char>, w: Seq<char>) -> bool {
    &&& u.len() == w.len()
    &&& forall|i: int| 0 <= i < u.len() ==> #[trigger] ascii_lower(u[i]) == w[i]
}

/// Position after an optional leading sign.
pub open spec fn sign_len(t: Seq<char>) -> int {
    if t.len() > 0 && (t[0] == '+' || t[0] == '-') {
        1
    } else {
        0
    }
}

/// The strings that `str::parse::<f64>` accepts: an optional sign, then
/// `inf`, `infinity` or `nan` in any ASCII case, or a decimal number.
pub open spec fn is_float_literal(t: Seq<char>) -> bool {
    let p = sign_len(t);
    let u = t.skip(p);
    ||| equals_ignoring_case(u, seq!['i', 'n', 'f'])
    ||| equals_ignoring_case(u, seq!['i', 'n', 'f', 'i', 'n', 'i', 't', 'y'])
    ||| equals_ignoring_case(u, seq!['n', 'a', 'n'])
    ||| is_number(t, p)
}

fn digit_run_exec(t: &Vec<char>, i: usize) -> (n: usize)
    requires
        i <= t@.len(),
    ensures
        n == digit_run(t@, i as int),
        i + n <= t@.len(),
    decreases t@.len() - i,
{
    if i < t.len() && '0' <= t[i] && t[i] <= '9' {
        1 + digit_run_exec(t, i + 1)
    } else {
        0
    }
}

fn exponent_exec(t: &Vec<char>, p: usize) -> (b: bool)
    requires
        p <= t@.len(),
    ensures
        b == is_exponent(t@, p as int),
{
    if p >= t.len() || !(t[p] == 'e' || t[p] == 'E') {
        return false;
    }
    let q = if p + 1 < t.len() && (t[p + 1] == '+' || t[p + 1] == '-') {
        p + 2
    } else {
        p + 1
    };
    q < t.len() && q + digit_run_exec(t, q) == t.len()
}

fn equals_ignoring_case_exec(t: &Vec<char>, from: usize, w: &Vec<char>) -> (b: bool)
    requires
        from <= t@.len(),
    ensures
        b == equals_ignoring_case(t@.skip(from as int), w@),
{
    if t.len() - from != w.len() {
        return false;
    }
    let mut i: usize = 0;
    while i < w.len()
        invariant
            from <= t@.len(),
            t@.len() == t.len(),
            t@.len() - from == w@.len(),
            i <= w@.len(),
            forall|j: int| 0 <= j < i ==> #[trigger] ascii_lower(t@.skip(from as int)[j]) == w@[j],
        decreases w@.len() - i,
    {
        let c = t[from + i];
        let lower = if 'A' <= c && c <= 'Z' {
            ((c as u32) + 32) as u8 as char
        } else {
            c
        };
        assert(t@.skip(from as int)[i as int] == c);
        assert(lower == ascii_lower(c)) by {
            if 'A' <= c <= 'Z' {
                assert(((c as u32) + 32) < 256);
            }
        }
        if lower != w[i] {
            return false;
        }
        i = i + 1;
    }
    true
}

/// Whether `t` is a floating-point literal that `str::parse::<f64>` accepts.
pub fn is_float_text(t: &str) -> (b: bool)
    ensures
        b == is_float_literal(t@),
{
    let chars = chars_of(t);
    let p: usize = if chars.len() > 0 && (chars[0] == '+' || chars[0] == '-') { 1 } else { 0 };
    let mut inf: Vec<char> = Vec::new();
    inf.push('i');
    inf.push('n');
    inf.push('f');
    let mut infinity: Vec<char> = Vec::new();
    infinity.push('i');
    infinity.push('n');
    infinity.push('f');
    infinity.push('i');
    infinity.push('n');
    infinity.push('i');
    infinity.push('t');
    infinity.push('y');
    let mut nan: Vec<char> = Vec::new();
    nan.push('n');
    nan.push('a');
    nan.push('n');
    assert(inf@ =~= seq!['i', 'n', 'f']);
    assert(infinity@ =~= seq!['i', 'n', 'f', 'i', 'n', 'i', 't', 'y']);
    assert(nan@ =~= seq!['n', 'a', 'n']);
    if equals_ignoring_case_exec(&chars, p, &inf) || equals_ignoring_case_exec(&chars, p, &infinity)
        || equals_ignoring_case_exec(&chars, p, &nan) {
        return true;
    }
    let a = digit_run_exec(&chars, p);
    let i1 = p + a;
    if i1 < chars.len() && chars[i1] == '.' {
        let b = digit_run_exec(&chars, i1 + 1);
        let i2 = i1 + 1 + b;
        (a > 0 || b > 0) && (i2 == chars.len() || exponent_exec(&chars, i2))
    } else {
        a > 0 && (i1 == chars.len() || exponent_exec(&chars, i1))
    }
}


pub(crate) proof fn lemma_trim_start_at(s: Seq<char>, i: int)
    requires
        0 <= i <= s.len(),
        forall|j: int| 0 <= j < i ==> #[trigger] is_white_space(s[j]),
        i == s.len() || !is_white_space(s[i]),
    ensures
        trim_start(s) == s.skip(i),
    decreases i,
{
    if i > 0 {
        lemma_trim_start_at(s.drop_first(), i - 1);
        assert(s.drop_first().skip(i - 1) =~= s.skip(i));
    } else {
        assert(s.skip(0) =~= s);
    }
}

proof fn lemma_trim_end_at(u: Seq<char>, j: int)
    requires
        0 <= j <= u.len(),
        forall|k: int| j <= k < u.len() ==> #[trigger] is_white_space(u[k]),
        j == 0 || !is_white_space(u[j - 1]),
    ensures
        trim_end(u) == u.take(j),
    decreases u.len() - j,
{
    if j < u.len() {
        lemma_trim_end_at(u.drop_last(), j);
        assert(u.drop_last().take(j) =~= u.take(j));
    } else {
        assert(u.take(j) =~= u);
    }
}

/// The range of `s` that `trim` keeps.
fn trim_range(s: &Vec<char>) -> (r: (usize, usize))
    ensures
        r.0 <= r.1 <= s@.len(),
        s@.subrange(r.0 as int, r.1 as int) == trim(s@),
{
    let mut a: usize = 0;
    while a < s.len() && white_space(s[a])
        invariant
            a <= s@.len(),
            forall|j: int| 0 <= j < a ==> #[trigger] is_white_space(s@[j]),
        decreases s@.len() - a,
    {
        a = a + 1;
    }
    proof {
        lemma_trim_start_at(s@, a as int);
    }
    let mut b: usize = s.len();
    while b > a && white_space(s[b - 1])
        invariant
            a <= b <= s@.len(),
            forall|k: int| b <= k < s@.len() ==> #[trigger] is_white_space(s@[k]),
        decreases b - a,
    {
        b = b - 1;
    }
    proof {
        let u = s@.skip(a as int);
        assert forall|k: int| b - a <= k < u.len() implies #[trigger] is_white_space(u[k]) by {
            assert(u[k] == s@[a + k]);
        }
        lemma_trim_end_at(u, b - a);
        assert(u.take(b - a) =~= s@.subrange(a as int, b as int));
    }
    (a, b)
}

/// A graph source as written on the command line, with the floating-point
/// parameters kept as the text that was given (already checked to be a
/// floating-point literal).
#[derive(Debug, Clone)]
pub enum SourceSpec {
    FixedEdgeCount { edge_factor: usize },
    BarabasiAlbert { m: usize },
    WattsStrogatz { k: usize, beta: String },
    RandomGeometric { radius: String },
    Grid,
    CastroD3,
    CastroH3,
    CastroSGridED,
    CastroRGridED,
    CastroSGridR,
    CastroRGridR,
    DimacsRoad { name: String },
}

/// A `SourceSpec` with its texts as character sequences.
pub enum SourceModel {
    FixedEdgeCount { edge_factor: usize },
    BarabasiAlbert { m: usize },
    WattsStrogatz { k: usize, beta: Seq<char> },
    RandomGeometric { radius: Seq<char> },
    Grid,
    CastroD3,
    CastroH3,
    CastroSGridED,
    CastroRGridED,
    CastroSGridR,
    CastroRGridR,
    DimacsRoad { name: Seq<char> },
}

impl View for SourceSpec {
    type V = SourceModel;

    open spec fn view(&self) -> SourceModel {
        match self {
            SourceSpec::FixedEdgeCount { edge_factor } => SourceModel::FixedEdgeCount { edge_factor: *edge_factor },
            SourceSpec::BarabasiAlbert { m } => SourceModel::BarabasiAlbert { m: *m },
            SourceSpec::WattsStrogatz { k, beta } => SourceModel::WattsStrogatz { k: *k, beta: beta@ },
            SourceSpec::RandomGeometric { radius } => SourceModel::RandomGeometric { radius: radius@ },
            SourceSpec::Grid => SourceModel::Grid,
            SourceSpec::CastroD3 => SourceModel::CastroD3,
            SourceSpec::CastroH3 => SourceModel::CastroH3,
            SourceSpec::CastroSGridED => SourceModel::CastroSGridED,
            SourceSpec::CastroRGridED => SourceModel::CastroRGridED,
            SourceSpec::CastroSGridR => SourceModel::CastroSGridR,
            SourceSpec::CastroRGridR => SourceModel::CastroRGridR,
            SourceSpec::DimacsRoad { name } => SourceModel::DimacsRoad { name: name@ },
        }
    }
}

/// The message for a missing `key=value` parameter.
pub open spec fn missing_param_message(key: Seq<char>) -> Seq<char> {
    seq!['m', 'i', 's', 's', 'i', 'n', 'g', ' ', 'p', 'a', 'r', 'a', 'm', 'e', 't', 'e', 'r', ' ', '\'']
        + key + seq!['\'']
}

/// The value of parameter `key`, or the message for its absence.
pub open spec fn spec_param(params: Seq<char>, key: Seq<char>) -> Result<Seq<char>, Seq<char>> {
    match lookup_param(split_by(params, ':'), key) {
        Some(v) => Ok(v),
        None => Err(missing_param_message(key)),
    }
}

/// A parameter that must be a `usize`.
pub open spec fn spec_usize_param(
    params: Seq<char>,
    key: Seq<char>,
    invalid: Seq<char>,
) -> Result<usize, Seq<char>> {
    match spec_param(params, key) {
        Err(e) => Err(e),
        Ok(v) => match spec_parse_usize(v) {
            Some(x) => Ok(x),
            None => Err(invalid + v),
        },
    }
}

/// What parsing a graph source gives: the bare names of the families without
/// parameters, or `type:params` with `key=value` parameters separated by `:`.
pub open spec fn spec_parse(s: Seq<char>) -> Result<SourceModel, Seq<char>> {
    let t = trim(s);
    if t == "grid"@ {
        Ok(SourceModel::Grid)
    } else if t == "castro:d3"@ || t == "d3"@ {
        Ok(SourceModel::CastroD3)
    } else if t == "castro:h3"@ || t == "h3"@ {
        Ok(SourceModel::CastroH3)
    } else if t == "castro:sgrided"@ || t == "sgrided"@ {
        Ok(SourceModel::CastroSGridED)
    } else if t == "castro:rgrided"@ || t == "rgrided"@ {
        Ok(SourceModel::CastroRGridED)
    } else if t == "castro:sgridr"@ || t == "sgridr"@ {
        Ok(SourceModel::CastroSGridR)
    } else if t == "castro:rgridr"@ || t == "rgridr"@ {
        Ok(SourceModel::CastroRGridR)
    } else {
        match split_once(t, ':') {
            None => Err("expected 'type:params', got '"@ + t + "'"@),
            Some((name, params)) => if name == "fixed"@ {
                match spec_usize_param(params, "ef"@, "invalid ef value: "@) {
                    Ok(x) => Ok(SourceModel::FixedEdgeCount { edge_factor: x }),
                    Err(e) => Err(e),
                }
            } else if name == "ba"@ {
                match spec_usize_param(params, "m"@, "invalid m value: "@) {
                    Ok(x) => Ok(SourceModel::BarabasiAlbert { m: x }),
                    Err(e) => Err(e),
                }
            } else if name == "ws"@ {
                match spec_param(params, "k"@) {
                    Err(e) => Err(e),
                    Ok(kv) => match spec_param(params, "beta"@) {
                        Err(e) => Err(e),
                        Ok(bv) => match spec_parse_usize(kv) {
                            None => Err("invalid k value: "@ + kv),
                            Some(k) => if is_float_literal(bv) {
                                Ok(SourceModel::WattsStrogatz { k, beta: bv })
                            } else {
                                Err("invalid beta value: "@ + bv)
                            },
                        },
                    },
                }
            } else if name == "rg"@ {
                match spec_param(params, "radius"@) {
                    Err(e) => Err(e),
                    Ok(r) => if is_float_literal(r) {
                        Ok(SourceModel::RandomGeometric { radius: r })
                    } else {
                        Err("invalid radius value: "@ + r)
                    },
                }
            } else if name == "dimacs"@ {
                match spec_param(params, "name"@) {
                    Err(e) => Err(e),
                    Ok(n) => if n.len() == 0 {
                        Err("dimacs name cannot be empty"@)
                    } else {
                        Ok(SourceModel::DimacsRoad { name: n })
                    },
                }
            } else {
                Err("unknown graph source: "@ + name)
            },
        }
    }
}

/// `prefix` followed by `rest`, as a `String`.
fn message(prefix: &str, rest: &str) -> (res: String)
    ensures
        res@ == prefix@ + rest@,
{
    let mut out: Vec<char> = Vec::new();
    push_str(&mut out, prefix);
    push_str(&mut out, rest);
    assert(out@ =~= prefix@ + rest@);
    chars_to_string(&out)
}

/// Whether `t` equals the literal `lit`.
fn is_word(t: &Vec<char>, lit: &str) -> (b: bool)
    ensures
        b == (t@ == lit@),
{
    let w = chars_of(lit);
    let r = range_equals(t, 0, t.len(), &w);
    assert(t@.subrange(0, t@.len() as int) =~= t@);
    r
}

fn usize_param(params: &str, key: &str, invalid: &str) -> (res: Result<usize, String>)
    ensures
        match res {
            Ok(x) => spec_usize_param(params@, key@, invalid@) == Ok::<usize, Seq<char>>(x),
            Err(e) => spec_usize_param(params@, key@, invalid@) == Err::<usize, Seq<char>>(e@),
        },
{
    match parse_param(params, key) {
        Err(e) => Err(e),
        Ok(v) => match parse_usize(v) {
            Some(x) => Ok(x),
            None => Err(message(invalid, v)),
        },
    }
}

impl SourceSpec {
    /// Parses a graph source: `grid`, the Castro families (`d3`, `h3`,
    /// `sgrided`, `rgrided`, `sgridr`, `rgridr`, each also with a `castro:`
    /// prefix), or `fixed:ef=N`, `ba:m=N`, `ws:k=N:beta=X`, `rg:radius=X`,
    /// `dimacs:name=NAME`. Surrounding white space is ignored.
    pub fn parse(s: &str) -> (res: Result<SourceSpec, String>)
        ensures
            match res {
                Ok(g) => spec_parse(s@) == Ok::<SourceModel, Seq<char>>(g@),
                Err(e) => spec_parse(s@) == Err::<SourceModel, Seq<char>>(e@),
            },
    {
        let chars = chars_of(s);
        let (a, b) = trim_range(&chars);
        let ts = s.substring_char(a, b);
        let t = chars_of(ts);
        assert(t@ == trim(s@));
        if is_word(&t, "grid") {
            return Ok(SourceSpec::Grid);
        }
        if is_word(&t, "castro:d3") || is_word(&t, "d3") {
            return Ok(SourceSpec::CastroD3);
        }
        if is_word(&t, "castro:h3") || is_word(&t, "h3") {
            return Ok(SourceSpec::CastroH3);
        }
        if is_word(&t, "castro:sgrided") || is_word(&t, "sgrided") {
            return Ok(SourceSpec::CastroSGridED);
        }
        if is_word(&t, "castro:rgrided") || is_word(&t, "rgrided") {
            return Ok(SourceSpec::CastroRGridED);
        }
        if is_word(&t, "castro:sgridr") || is_word(&t, "sgridr") {
            return Ok(SourceSpec::CastroSGridR);
        }
        if is_word(&t, "castro:rgridr") || is_word(&t, "rgridr") {
            return Ok(SourceSpec::CastroRGridR);
        }
        let len = t.len();
        let colon = find_char(&t, ':', 0, len);
        if colon == len {
            proof {
                lemma_split_once_none(t@, ':');
            }
            let mut out: Vec<char> = Vec::new();
            push_str(&mut out, "expected 'type:params', got '");
            push_str(&mut out, ts);
            push_str(&mut out, "'");
            assert(out@ =~= "expected 'type:params', got '"@ + t@ + "'"@);
            return Err(chars_to_string(&out));
        }
        proof {
            lemma_split_once_at(t@, ':', colon as int);
        }
        let name_str = ts.substring_char(0, colon);
        let params = ts.substring_char(colon + 1, len);
        assert(name_str@ =~= t@.take(colon as int));
        assert(params@ =~= t@.skip(colon + 1));
        let name = chars_of(name_str);
        if is_word(&name, "fixed") {
            match usize_param(params, "ef", "invalid ef value: ") {
                Ok(x) => Ok(SourceSpec::FixedEdgeCount { edge_factor: x }),
                Err(e) => Err(e),
            }
        } else if is_word(&name, "ba") {
            match usize_param(params, "m", "invalid m value: ") {
                Ok(x) => Ok(SourceSpec::BarabasiAlbert { m: x }),
                Err(e) => Err(e),
            }
        } else if is_word(&name, "ws") {
            let kv = match parse_param(params, "k") {
                Ok(v) => v,
                Err(e) => {
                    return Err(e);
                },
            };
            let bv = match parse_param(params, "beta") {
                Ok(v) => v,
                Err(e) => {
                    return Err(e);
                },
            };
            match parse_usize(kv) {
                None => Err(message("invalid k value: ", kv)),
                Some(k) => if is_float_text(bv) {
                    Ok(SourceSpec::WattsStrogatz { k, beta: bv.to_owned() })
                } else {
                    Err(message("invalid beta value: ", bv))
                },
            }
        } else if is_word(&name, "rg") {
            match parse_param(params, "radius") {
                Err(e) => Err(e),
                Ok(r) => if is_float_text(r) {
                    Ok(SourceSpec::RandomGeometric { radius: r.to_owned() })
                } else {
                    Err(message("invalid radius value: ", r))
                },
            }
        } else if is_word(&name, "dimacs") {
            match parse_param(params, "name") {
                Err(e) => Err(e),
                Ok(n) => if n.is_empty() {
                    Err(String::from_str("dimacs name cannot be empty"))
                } else {
                    Ok(SourceSpec::DimacsRoad { name: n.to_owned() })
                },
            }
        } else {
            Err(message("unknown graph source: ", name_str))
        }
    }

    /// DIMACS road graphs have the size of the file they come from.
    pub fn ignores_node_count(&self) -> (b: bool)
        ensures
            b == (self@ is DimacsRoad),
    {
        match self {
            SourceSpec::DimacsRoad { .. } => true,
            _ => false,
        }
    }
}


/// The cache key of a source: a short name, the numeric parameters in
/// decimal, and for DIMACS graphs the sanitized file name. `scaled` stands
/// for the floating-point parameter of the Watts-Strogatz and random
/// geometric families, already scaled and truncated (beta times 100, radius
/// times 1000); the other families do not read it.
pub open spec fn spec_cache_key(source: SourceModel, scaled: u32) -> Seq<char> {
    match source {
        SourceModel::FixedEdgeCount { edge_factor } => seq!['e', 'f'] + decimal(edge_factor as nat),
        SourceModel::BarabasiAlbert { m } => seq!['b', 'a', '_', 'm'] + decimal(m as nat),
        SourceModel::WattsStrogatz { k, .. } => seq!['w', 's', '_', 'k'] + decimal(k as nat)
            + seq!['_', 'b'] + decimal(scaled as nat),
        SourceModel::RandomGeometric { .. } => seq!['r', 'g', '_', 'r'] + decimal(scaled as nat),
        SourceModel::Grid => "grid"@,
        SourceModel::CastroD3 => "castro_d3"@,
        SourceModel::CastroH3 => "castro_h3"@,
        SourceModel::CastroSGridED => "castro_sgrided"@,
        SourceModel::CastroRGridED => "castro_rgrided"@,
        SourceModel::CastroSGridR => "castro_sgridr"@,
        SourceModel::CastroRGridR => "castro_rgridr"@,
        SourceModel::DimacsRoad { name } => seq!['d', 'i', 'm', 'a', 'c', 's', '_'] + spec_sanitize(name),
    }
}

impl SourceSpec {
    /// The key under which graphs of this source are cached; see
    /// `spec_cache_key` for the role of `scaled`.
    pub fn cache_key_with(&self, scaled: u32) -> (res: String)
        ensures
            res@ == spec_cache_key(self@, scaled),
    {
        let mut out: Vec<char> = Vec::new();
        match self {
            SourceSpec::FixedEdgeCount { edge_factor } => {
                out.push('e');
                out.push('f');
                push_decimal(&mut out, *edge_factor);
            },
            SourceSpec::BarabasiAlbert { m } => {
                out.push('b');
                out.push('a');
                out.push('_');
                out.push('m');
                push_decimal(&mut out, *m);
            },
            SourceSpec::WattsStrogatz { k, .. } => {
                out.push('w');
                out.push('s');
                out.push('_');
                out.push('k');
                push_decimal(&mut out, *k);
                out.push('_');
                out.push('b');
                push_decimal(&mut out, scaled as usize);
            },
            SourceSpec::RandomGeometric { .. } => {
                out.push('r');
                out.push('g');
                out.push('_');
                out.push('r');
                push_decimal(&mut out, scaled as usize);
            },
            SourceSpec::Grid => push_str(&mut out, "grid"),
            SourceSpec::CastroD3 => push_str(&mut out, "castro_d3"),
            SourceSpec::CastroH3 => push_str(&mut out, "castro_h3"),
            SourceSpec::CastroSGridED => push_str(&mut out, "castro_sgrided"),
            SourceSpec::CastroRGridED => push_str(&mut out, "castro_rgrided"),
            SourceSpec::CastroSGridR => push_str(&mut out, "castro_sgridr"),
            SourceSpec::CastroRGridR => push_str(&mut out, "castro_rgridr"),
            SourceSpec::DimacsRoad { name } => {
                out.push('d');
                out.push('i');
                out.push('m');
                out.push('a');
                out.push('c');
                out.push('s');
                out.push('_');
                push_sanitized(&mut out, name.as_str());
            },
        }
        assert(out@ =~= spec_cache_key(self@, scaled));
        chars_to_string(&out)
    }
}

/// The position of a source's family in the list of families.
pub open spec fn family_index(m: SourceModel) -> int {
    match m {
        SourceModel::FixedEdgeCount { .. } => 0,
        SourceModel::BarabasiAlbert { .. } => 1,
        SourceModel::WattsStrogatz { .. } => 2,
        SourceModel::RandomGeometric { .. } => 3,
        SourceModel::Grid => 4,
        SourceModel::CastroD3 => 5,
        SourceModel::CastroH3 => 6,
        SourceModel::CastroSGridED => 7,
        SourceModel::CastroRGridED => 8,
        SourceModel::CastroSGridR => 9,
        SourceModel::CastroRGridR => 10,
        SourceModel::DimacsRoad { .. } => 11,
    }
}

/// Reads the family back from a cache key: the first character, and for
/// the Castro families the length and the eighth character.
spec fn key_family(k: Seq<char>) -> int {
    if k[0] == 'e' {
        0
    } else if k[0] == 'b' {
        1
    } else if k[0] == 'w' {
        2
    } else if k[0] == 'r' {
        3
    } else if k[0] == 'g' {
        4
    } else if k[0] == 'd' {
        11
    } else if k.len() == 9 {
        if k[7] == 'd' { 5 } else { 6 }
    } else if k.len() == 14 {
        if k[7] == 's' { 7 } else { 8 }
    } else {
        if k[7] == 's' { 9 } else { 10 }
    }
}

proof fn lemma_key_family(m: SourceModel, scaled: u32)
    ensures
        spec_cache_key(m, scaled).len() >= 1,
        key_family(spec_cache_key(m, scaled)) == family_index(m),
{
    reveal_strlit("grid");
    reveal_strlit("castro_d3");
    reveal_strlit("castro_h3");
    reveal_strlit("castro_sgrided");
    reveal_strlit("castro_rgrided");
    reveal_strlit("castro_sgridr");
    reveal_strlit("castro_rgridr");
}

/// Cache keys tell sources apart: two sources with the same key are of the
/// same family, with the same edge factor, the same `m`, the same `k` and
/// scaled beta, or the same scaled radius; DIMACS sources with the same key
/// have names that sanitize alike. In particular the six Castro families
/// have six different keys.
pub proof fn lemma_cache_key_identifies(a: SourceModel, sa: u32, b: SourceModel, sb: u32)
    requires
        spec_cache_key(a, sa) == spec_cache_key(b, sb),
    ensures
        family_index(a) == family_index(b),
        a is FixedEdgeCount ==> a->FixedEdgeCount_edge_factor == b->FixedEdgeCount_edge_factor,
        a is BarabasiAlbert ==> a->BarabasiAlbert_m == b->BarabasiAlbert_m,
        a is WattsStrogatz ==> a->WattsStrogatz_k == b->WattsStrogatz_k && sa == sb,
        a is RandomGeometric ==> sa == sb,
        a is DimacsRoad ==> spec_sanitize(a->DimacsRoad_name) == spec_sanitize(b->DimacsRoad_name),
{
    let k = spec_cache_key(a, sa);
    lemma_key_family(a, sa);
    lemma_key_family(b, sb);
    match a {
        SourceModel::FixedEdgeCount { edge_factor: x } => {
            let y = b->FixedEdgeCount_edge_factor;
            assert(decimal(x as nat) =~= k.skip(2));
            assert(decimal(y as nat) =~= spec_cache_key(b, sb).skip(2));
            lemma_decimal_injective(x as nat, y as nat);
        },
        SourceModel::BarabasiAlbert { m: x } => {
            let y = b->BarabasiAlbert_m;
            assert(decimal(x as nat) =~= k.skip(4));
            assert(decimal(y as nat) =~= spec_cache_key(b, sb).skip(4));
            lemma_decimal_injective(x as nat, y as nat);
        },
        SourceModel::WattsStrogatz { k: x, .. } => {
            let y = b->WattsStrogatz_k;
            let r1 = seq!['_', 'b'] + decimal(sa as nat);
            let r2 = seq!['_', 'b'] + decimal(sb as nat);
            lemma_decimal_digits(x as nat);
            lemma_decimal_digits(y as nat);
            assert(k.skip(4) =~= decimal(x as nat) + r1);
            assert(spec_cache_key(b, sb).skip(4) =~= decimal(y as nat) + r2);
            assert(r1[0] == '_' && r2[0] == '_');
            lemma_digit_run_split(decimal(x as nat), r1, decimal(y as nat), r2);
            lemma_decimal_injective(x as nat, y as nat);
            assert(decimal(sa as nat) =~= r1.skip(2));
            assert(decimal(sb as nat) =~= r2.skip(2));
            lemma_decimal_injective(sa as nat, sb as nat);
        },
        SourceModel::RandomGeometric { .. } => {
            assert(decimal(sa as nat) =~= k.skip(4));
            assert(decimal(sb as nat) =~= spec_cache_key(b, sb).skip(4));
            lemma_decimal_injective(sa as nat, sb as nat);
        },
        SourceModel::DimacsRoad { name } => {
            assert(spec_sanitize(name) =~= k.skip(7));
            assert(spec_sanitize(b->DimacsRoad_name) =~= spec_cache_key(b, sb).skip(7));
        },
        _ => {},
    }
}

/// The short names of the Castro families.
pub open spec fn is_castro_name(x: Seq<char>) -> bool {
    ||| x == "d3"@
    ||| x == "h3"@
    ||| x == "sgrided"@
    ||| x == "rgrided"@
    ||| x == "sgridr"@
    ||| x == "rgridr"@
}

proof fn lemma_trim_plain(s: Seq<char>)
    requires
        s.len() >= 1,
        !is_white_space(s[0]),
        !is_white_space(s.last()),
    ensures
        trim(s) == s,
{
}

/// Each Castro family name parses to its own family, and the name with
/// `castro:` in front parses to the same family as the name alone.
pub proof fn lemma_parse_castro_names()
    ensures
        spec_parse("d3"@) == Ok::<SourceModel, Seq<char>>(SourceModel::CastroD3),
        spec_parse("h3"@) == Ok::<SourceModel, Seq<char>>(SourceModel::CastroH3),
        spec_parse("sgrided"@) == Ok::<SourceModel, Seq<char>>(SourceModel::CastroSGridED),
        spec_parse("rgrided"@) == Ok::<SourceModel, Seq<char>>(SourceModel::CastroRGridED),
        spec_parse("sgridr"@) == Ok::<SourceModel, Seq<char>>(SourceModel::CastroSGridR),
        spec_parse("rgridr"@) == Ok::<SourceModel, Seq<char>>(SourceModel::CastroRGridR),
        spec_parse("grid"@) == Ok::<SourceModel, Seq<char>>(SourceModel::Grid),
        forall|x: Seq<char>| #[trigger] is_castro_name(x) ==> spec_parse("castro:"@ + x) == spec_parse(x),
{
    reveal_strlit("grid");
    reveal_strlit("castro:");
    reveal_strlit("d3");
    reveal_strlit("h3");
    reveal_strlit("sgrided");
    reveal_strlit("rgrided");
    reveal_strlit("sgridr");
    reveal_strlit("rgridr");
    reveal_strlit("castro:d3");
    reveal_strlit("castro:h3");
    reveal_strlit("castro:sgrided");
    reveal_strlit("castro:rgrided");
    reveal_strlit("castro:sgridr");
    reveal_strlit("castro:rgridr");
    lemma_trim_plain("grid"@);
    lemma_trim_plain("d3"@);
    lemma_trim_plain("h3"@);
    lemma_trim_plain("sgrided"@);
    lemma_trim_plain("rgrided"@);
    lemma_trim_plain("sgridr"@);
    lemma_trim_plain("rgridr"@);
    lemma_trim_plain("castro:d3"@);
    lemma_trim_plain("castro:h3"@);
    lemma_trim_plain("castro:sgrided"@);
    lemma_trim_plain("castro:rgrided"@);
    lemma_trim_plain("castro:sgridr"@);
    lemma_trim_plain("castro:rgridr"@);
    assert("castro:"@ + "d3"@ =~= "castro:d3"@);
    assert("castro:"@ + "h3"@ =~= "castro:h3"@);
    assert("castro:"@ + "sgrided"@ =~= "castro:sgrided"@);
    assert("castro:"@ + "rgrided"@ =~= "castro:rgrided"@);
    assert("castro:"@ + "sgridr"@ =~= "castro:sgridr"@);
    assert("castro:"@ + "rgridr"@ =~= "castro:rgridr"@);
    assert("h3"@[0] != "d3"@[0]);
    assert("h3"@ != "d3"@);
    assert("castro:h3"@[7] != "castro:d3"@[7]);
    assert("castro:h3"@ != "castro:d3"@);
    assert("sgrided"@ != "d3"@);
    assert("sgrided"@ != "h3"@);
    assert("rgrided"@[0] != "sgrided"@[0]);
    assert("rgrided"@ != "sgrided"@);
    assert("castro:rgrided"@[7] != "castro:sgrided"@[7]);
    assert("castro:rgrided"@ != "castro:sgrided"@);
    assert("sgridr"@ != "sgrided"@);
    assert("sgridr"@ != "rgrided"@);
    assert("castro:sgridr"@ != "castro:sgrided"@);
    assert("castro:sgridr"@ != "castro:rgrided"@);
    assert("rgridr"@[0] != "sgridr"@[0]);
    assert("rgridr"@ != "sgridr"@);
    assert("rgridr"@ != "rgrided"@);
    assert("castro:rgridr"@[7] != "castro:sgridr"@[7]);
    assert("castro:rgridr"@ != "castro:sgridr"@);
    assert("castro:rgridr"@ != "castro:rgrided"@);
}

} // verus!
