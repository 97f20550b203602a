//! Numbers as text: parsing, classification and rendering.
//!
//! Records carry numeric fields both as JSON numbers and as decimal
//! strings, so the pipeline needs to read integers out of text, decide
//! whether a string would parse as an unsigned, signed or floating-point
//! number, and render integers back to text.  Everything here is verified
//! against spec functions over `Seq<char>`.

use vstd::prelude::*;

verus! {

pub open spec fn is_digit(c: char) -> bool {
    '0' <= c <= '9'
}

pub open spec fn digit_val(c: char) -> nat {
    (c as nat - '0' as nat) as nat
}

/// All characters are decimal digits.
pub open spec fn all_digits(s: Seq<char>) -> bool {
    forall|i: int| 0 <= i < s.len() ==> is_digit(s[i])
}

/// The unsigned value that a digit string denotes.
pub open spec fn digits_value(s: Seq<char>) -> nat
    decreases s.len(),
{
    if s.len() == 0 {
        0
    } else {
        digits_value(s.drop_last()) * 10 + digit_val(s.last())
    }
}

/// `s` with one leading `+` removed, as `u64::from_str` strips it.
pub open spec fn strip_plus(s: Seq<char>) -> Seq<char> {
    if s.len() > 0 && s[0] == '+' {
        s.subrange(1, s.len() as int)
    } else {
        s
    }
}

/// Would `u64::from_str` accept `s`?  Digits after an optional `+`,
/// at least one of them, with the value in range.
pub open spec fn is_u64_text(s: Seq<char>) -> bool {
    let d = strip_plus(s);
    d.len() > 0 && all_digits(d) && digits_value(d) <= u64::MAX
}

/// `s` with one leading `+` or `-` removed.
pub open spec fn strip_sign(s: Seq<char>) -> Seq<char> {
    if s.len() > 0 && (s[0] == '+' || s[0] == '-') {
        s.subrange(1, s.len() as int)
    } else {
        s
    }
}

pub open spec fn is_negative_text(s: Seq<char>) -> bool {
    s.len() > 0 && s[0] == '-'
}

/// The signed value that a signed digit string denotes.
pub open spec fn signed_value(s: Seq<char>) -> int {
    if is_negative_text(s) {
        -(digits_value(strip_sign(s)) as int)
    } else {
        digits_value(strip_sign(s)) as int
    }
}

/// Would `i64::from_str` accept `s`?
pub open spec fn is_i64_text(s: Seq<char>) -> bool {
    let d = strip_sign(s);
    d.len() > 0 && all_digits(d) && i64::MIN <= signed_value(s) <= i64::MAX
}

/// A digit string is worth at least any of its prefixes.
proof fn lemma_digits_value_prefix(s: Seq<char>, i: int)
    requires
        0 <= i <= s.len(),
    ensures
        digits_value(s) >= digits_value(s.subrange(0, i)),
    decreases s.len() - i,
{
    if i < s.len() {
        lemma_digits_value_prefix(s, i + 1);
        let a = s.subrange(0, i);
        let b = s.subrange(0, i + 1);
        assert(b.drop_last() =~= a);
        assert(digits_value(b) == digits_value(a) * 10 + digit_val(b.last()));
        assert(digits_value(a) * 10 >= digits_value(a)) by (nonlinear_arith);
    } else {
        assert(s.subrange(0, i) =~= s);
    }
}

/// Parse an unsigned decimal integer the way `u64::from_str` does.
pub fn parse_u64(s: &str) -> (r: Option<u64>)
    ensures
        match r {
            Some(v) => is_u64_text(s@) && v == digits_value(strip_plus(s@)),
            None => !is_u64_text(s@),
        },
{
    let cs = crate::strkit::chars_of(s);
    let start: usize = if cs.len() > 0 && cs[0] == '+' {
        1
    } else {
        0
    };
    let ghost d = strip_plus(s@);
    proof {
        assert(d =~= s@.subrange(start as int, s@.len() as int));
    }
    if cs.len() == start {
        return None;
    }
    let mut acc: u64 = 0;
    let n = cs.len();
    for i in start..n
        invariant
            cs@ == s@,
            n == cs@.len(),
            start <= i <= n,
            d == strip_plus(s@),
            d == s@.subrange(start as int, s@.len() as int),
            all_digits(s@.subrange(start as int, i as int)),
            acc == digits_value(s@.subrange(start as int, i as int)),
    {
        let ghost pre = s@.subrange(start as int, i as int);
        let c = cs[i];
        if !(c >= '0' && c <= '9') {
            proof {
                assert(d[(i - start) as int] == s@[i as int]);
                assert(!is_digit(d[(i - start) as int]));
            }
            return None;
        }
        let dv: u64 = (c as u32 - '0' as u32) as u64;
        if acc > (u64::MAX - dv) / 10 {
            proof {
                let ext = s@.subrange(start as int, i + 1);
                assert(ext.drop_last() =~= pre);
                assert(digits_value(ext) == acc * 10 + dv);
                assert(acc * 10 + dv > u64::MAX) by (nonlinear_arith)
                    requires
                        acc > (u64::MAX - dv) / 10,
                        0 <= dv <= 9,
                        acc <= u64::MAX,
                ;
                lemma_digits_value_prefix(d, (i + 1 - start) as int);
                assert(d.subrange(0, (i + 1 - start) as int) =~= ext);
            }
            return None;
        }
        proof {
            let ext = s@.subrange(start as int, i + 1);
            assert(ext.drop_last() =~= pre);
            assert(acc * 10 + dv <= u64::MAX) by (nonlinear_arith)
                requires
                    acc <= (u64::MAX - dv) / 10,
                    0 <= dv <= 9,
            ;
        }
        acc = acc * 10 + dv;
    }
    proof {
        assert(s@.subrange(start as int, n as int) =~= d);
    }
    Some(acc)
}

/// Parse a signed decimal integer the way `i64::from_str` does.
pub fn parse_i64(s: &str) -> (r: Option<i64>)
    ensures
        match r {
            Some(v) => is_i64_text(s@) && v == signed_value(s@),
            None => !is_i64_text(s@),
        },
{
    let cs = crate::strkit::chars_of(s);
    let negative = cs.len() > 0 && cs[0] == '-';
    let rest: String = if cs.len() > 0 && (cs[0] == '-' || cs[0] == '+') {
        let mut tail: Vec<char> = Vec::new();
        let n = cs.len();
        for i in 1..n
            invariant
                cs@ == s@,
                n == cs@.len(),
                1 <= i <= n,
                tail@ == s@.subrange(1, i as int),
        {
            tail.push(cs[i]);
            proof {
                assert(s@.subrange(1, i as int).push(s@[i as int]) =~= s@.subrange(1, i + 1));
            }
        }
        crate::strkit::string_of(tail)
    } else {
        crate::strkit::string_of(cs)
    };
    proof {
        assert(rest@ =~= strip_sign(s@));
    }
    let rcs = crate::strkit::chars_of(rest.as_str());
    if rcs.len() > 0 && rcs[0] == '+' {
        proof {
            assert(!is_digit(strip_sign(s@)[0]));
        }
        return None;
    }
    proof {
        assert(strip_plus(rest@) =~= rest@);
    }
    match parse_u64(rest.as_str()) {
        None => {
            proof {
                if is_i64_text(s@) {
                    let dmag = digits_value(strip_sign(s@));
                    assert(dmag <= u64::MAX);
                }
            }
            None
        },
        Some(mag) => {
            if negative {
                if mag <= 9223372036854775808u64 {
                    Some((-(mag as i128)) as i64)
                } else {
                    None
                }
            } else {
                if mag <= 9223372036854775807u64 {
                    Some(mag as i64)
                } else {
                    None
                }
            }
        },
    }
}

/// Number of `.` characters in `s`.
pub open spec fn dot_count(s: Seq<char>) -> nat
    decreases s.len(),
{
    if s.len() == 0 {
        0
    } else {
        dot_count(s.drop_last()) + if s.last() == '.' {
            1nat
        } else {
            0nat
        }
    }
}

/// Number of decimal digits in `s`.
pub open spec fn digit_count(s: Seq<char>) -> nat
    decreases s.len(),
{
    if s.len() == 0 {
        0
    } else {
        digit_count(s.drop_last()) + if is_digit(s.last()) {
            1nat
        } else {
            0nat
        }
    }
}

/// The mantissa of a float literal: digits with at most one point and at
/// least one digit, nothing else.
pub open spec fn is_mantissa(s: Seq<char>) -> bool {
    &&& forall|i: int| 0 <= i < s.len() ==> (is_digit(s[i]) || s[i] == '.')
    &&& dot_count(s) <= 1
    &&& digit_count(s) >= 1
}

/// An exponent: an optional sign then at least one digit.
pub open spec fn is_exponent(s: Seq<char>) -> bool {
    strip_sign(s).len() > 0 && all_digits(strip_sign(s))
}

/// The body of a decimal float literal: a mantissa, or a mantissa and an
/// exponent split by some `e`/`E`.  Only the first `e` can witness the
/// split, since a mantissa admits no `e` itself.
pub open spec fn is_decimal_text(b: Seq<char>) -> bool {
    ||| is_mantissa(b)
    ||| exists|i: int|
        0 <= i < b.len() && (b[i] == 'e' || b[i] == 'E') && is_mantissa(b.subrange(0, i))
            && is_exponent(b.subrange(i + 1, b.len() as int))
}

/// Does `c` match the lower-case letter `lower`, ignoring case?
pub open spec fn matches_ci(c: char, lower: char) -> bool {
    c == lower || c as u32 + 32 == lower as u32
}

/// Case-insensitive equality with a lower-case word.
pub open spec fn eq_ignore_case(s: Seq<char>, word: Seq<char>) -> bool {
    s.len() == word.len() && forall|i: int| 0 <= i < s.len() ==> matches_ci(s[i], word[i])
}

/// The special float words `from_str` accepts after the sign.
pub open spec fn is_special_float_word(s: Seq<char>) -> bool {
    ||| eq_ignore_case(s, seq!['i', 'n', 'f'])
    ||| eq_ignore_case(s, seq!['i', 'n', 'f', 'i', 'n', 'i', 't', 'y'])
    ||| eq_ignore_case(s, seq!['n', 'a', 'n'])
}

/// Would `f64::from_str` accept `s`?  An optional sign, then either a
/// special word or a mantissa with an optional exponent.
pub open spec fn is_float_text(s: Seq<char>) -> bool {
    ||| is_special_float_word(strip_sign(s))
    ||| is_decimal_text(strip_sign(s))
}

/// Where the first `e`/`E` of `s` stands, found by scanning.
fn find_exp_index(cs: &Vec<char>) -> (r: Option<usize>)
    ensures
        match r {
            Some(i) => i < cs@.len() && (cs@[i as int] == 'e' || cs@[i as int] == 'E')
                && forall|j: int| 0 <= j < i ==> !(cs@[j] == 'e' || cs@[j] == 'E'),
            None => forall|j: int| 0 <= j < cs@.len() ==> !(cs@[j] == 'e' || cs@[j] == 'E'),
        },
{
    let n = cs.len();
    for i in 0..n
        invariant
            n == cs@.len(),
            forall|j: int| 0 <= j < i ==> !(cs@[j] == 'e' || cs@[j] == 'E'),
    {
        if cs[i] == 'e' || cs[i] == 'E' {
            return Some(i);
        }
    }
    None
}

/// Is `sub` a mantissa?  `sub` is a subrange of some scanned vector.
fn check_mantissa(cs: &Vec<char>, from: usize, to: usize) -> (r: bool)
    requires
        from <= to <= cs@.len(),
    ensures
        r == is_mantissa(cs@.subrange(from as int, to as int)),
{
    let ghost m = cs@.subrange(from as int, to as int);
    let mut dots: usize = 0;
    let mut digits: usize = 0;
    for i in from..to
        invariant
            from <= i <= to <= cs@.len(),
            m == cs@.subrange(from as int, to as int),
            dots == dot_count(m.subrange(0, i - from)),
            digits == digit_count(m.subrange(0, i - from)),
            dots <= i,
            digits <= i,
            forall|j: int| 0 <= j < i - from ==> (is_digit(m[j]) || m[j] == '.'),
    {
        let ghost pre = m.subrange(0, i - from);
        let c = cs[i];
        proof {
            assert(m.subrange(0, i + 1 - from).drop_last() =~= pre);
            assert(m[i - from] == cs@[i as int]);
        }
        if c == '.' {
            dots = dots + 1;
        } else if c >= '0' && c <= '9' {
            digits = digits + 1;
        } else {
            return false;
        }
    }
    proof {
        assert(m.subrange(0, to - from) =~= m);
    }
    dots <= 1 && digits >= 1
}

/// Is the subrange `[from, to)` an exponent part?
fn check_exponent(cs: &Vec<char>, from: usize, to: usize) -> (r: bool)
    requires
        from <= to <= cs@.len(),
    ensures
        r == is_exponent(cs@.subrange(from as int, to as int)),
{
    let ghost e = cs@.subrange(from as int, to as int);
    let start: usize = if from < to && (cs[from] == '+' || cs[from] == '-') {
        from + 1
    } else {
        from
    };
    proof {
        assert(strip_sign(e) =~= cs@.subrange(start as int, to as int));
    }
    if start == to {
        return false;
    }
    for i in start..to
        invariant
            from <= start <= i <= to <= cs@.len(),
            e == cs@.subrange(from as int, to as int),
            strip_sign(e) == cs@.subrange(start as int, to as int),
            forall|j: int| start <= j < i ==> is_digit(cs@[j]),
    {
        let c = cs[i];
        if !(c >= '0' && c <= '9') {
            proof {
                assert(strip_sign(e)[i - start] == cs@[i as int]);
                assert(!is_digit(strip_sign(e)[i - start]));
            }
            return false;
        }
    }
    proof {
        assert forall|j: int| 0 <= j < strip_sign(e).len() implies is_digit(
            strip_sign(e)[j],
        ) by {
            assert(strip_sign(e)[j] == cs@[start + j]);
        }
    }
    true
}

/// Case-insensitive comparison against a lower-case word.
fn eq_word_ci(cs: &Vec<char>, from: usize, word: &[char]) -> (r: bool)
    requires
        from <= cs@.len(),
        forall|i: int| 0 <= i < word@.len() ==> 'a' <= #[trigger] word@[i] <= 'z',
    ensures
        r == eq_ignore_case(cs@.subrange(from as int, cs@.len() as int), word@),
{
    let ghost s = cs@.subrange(from as int, cs@.len() as int);
    if cs.len() - from != word.len() {
        return false;
    }
    let n = word.len();
    for i in 0..n
        invariant
            from + n == cs@.len(),
            cs@.len() <= usize::MAX,
            n == word@.len(),
            s == cs@.subrange(from as int, cs@.len() as int),
            forall|j: int| 0 <= j < word@.len() ==> 'a' <= #[trigger] word@[j] <= 'z',
            forall|j: int| 0 <= j < i ==> matches_ci(s[j], word@[j]),
    {
        let c = cs[from + i];
        let w = word[i];
        proof {
            assert(s[i as int] == cs@[from + i]);
            assert('a' <= word@[i as int] <= 'z');
        }
        let same = c == w || (c as u32 as u64) + 32 == (w as u32 as u64);
        if !same {
            proof {
                assert(!matches_ci(s[i as int], word@[i as int]));
            }
            return false;
        }
    }
    true
}

/// Would `f64::from_str` accept `s`?
pub fn is_float_literal(s: &str) -> (r: bool)
    ensures
        r == is_float_text(s@),
{
    let cs = crate::strkit::chars_of(s);
    let start: usize = if cs.len() > 0 && (cs[0] == '+' || cs[0] == '-') {
        1
    } else {
        0
    };
    let ghost b = strip_sign(s@);
    proof {
        assert(b =~= s@.subrange(start as int, s@.len() as int));
    }
    let inf: [char; 3] = ['i', 'n', 'f'];
    let infinity: [char; 8] = ['i', 'n', 'f', 'i', 'n', 'i', 't', 'y'];
    let nan: [char; 3] = ['n', 'a', 'n'];
    if eq_word_ci(&cs, start, inf.as_slice()) || eq_word_ci(&cs, start, infinity.as_slice())
        || eq_word_ci(&cs, start, nan.as_slice()) {
        proof {
            assert(inf@ =~= seq!['i', 'n', 'f']);
            assert(infinity@ =~= seq!['i', 'n', 'f', 'i', 'n', 'i', 't', 'y']);
            assert(nan@ =~= seq!['n', 'a', 'n']);
        }
        return true;
    }
    proof {
        assert(inf@ =~= seq!['i', 'n', 'f']);
        assert(infinity@ =~= seq!['i', 'n', 'f', 'i', 'n', 'i', 't', 'y']);
        assert(nan@ =~= seq!['n', 'a', 'n']);
    }
    let mut body: Vec<char> = Vec::new();
    let n = cs.len();
    for i in start..n
        invariant
            cs@ == s@,
            n == cs@.len(),
            start <= i <= n,
            b == strip_sign(s@),
            b == s@.subrange(start as int, s@.len() as int),
            body@ == s@.subrange(start as int, i as int),
    {
        body.push(cs[i]);
        proof {
            assert(s@.subrange(start as int, i as int).push(s@[i as int]) =~= s@.subrange(
                start as int,
                i + 1,
            ));
        }
    }
    proof {
        assert(body@ =~= b);
    }
    match find_exp_index(&body) {
        None => {
            let r = check_mantissa(&body, 0, body.len());
            proof {
                assert(body@.subrange(0, body@.len() as int) =~= body@);
                if !r {
                    assert forall|i: int|
                        !(0 <= i < b.len() && (b[i] == 'e' || b[i] == 'E') && is_mantissa(
                            b.subrange(0, i),
                        ) && is_exponent(b.subrange(i + 1, b.len() as int))) by {}
                }
            }
            r
        },
        Some(e) => {
            let m = check_mantissa(&body, 0, e);
            let x = check_exponent(&body, e + 1, body.len());
            proof {
                if m && x {
                    assert(is_decimal_text(b)) by {
                        assert(0 <= e < b.len() && (b[e as int] == 'e' || b[e as int] == 'E')
                            && is_mantissa(b.subrange(0, e as int)) && is_exponent(
                            b.subrange(e + 1, b.len() as int),
                        ));
                    }
                } else {
                    assert(!is_mantissa(b)) by {
                        assert(!is_digit(b[e as int]) && b[e as int] != '.');
                    }
                    assert forall|i: int|
                        0 <= i < b.len() && (b[i] == 'e' || b[i] == 'E') implies !(is_mantissa(
                        b.subrange(0, i),
                    ) && is_exponent(b.subrange(i + 1, b.len() as int))) by {
                        if i < e as int {
                            assert(!(b[i] == 'e' || b[i] == 'E'));
                        } else if i > e as int {
                            assert(b.subrange(0, i)[e as int] == b[e as int]);
                            assert(!is_digit(b.subrange(0, i)[e as int]) && b.subrange(0, i)[
                                e as int
                            ] != '.');
                            assert(!is_mantissa(b.subrange(0, i)));
                        }
                    }
                }
            }
            m && x
        },
    }
}

/// The decimal rendering of an unsigned integer, without sign or padding.
pub open spec fn spec_u64_digits(n: nat) -> Seq<char>
    decreases n,
{
    if n < 10 {
        seq![digit_char(n)]
    } else {
        spec_u64_digits(n / 10).push(digit_char(n % 10))
    }
}

pub open spec fn digit_char(d: nat) -> char {
    if d == 0 {
        '0'
    } else if d == 1 {
        '1'
    } else if d == 2 {
        '2'
    } else if d == 3 {
        '3'
    } else if d == 4 {
        '4'
    } else if d == 5 {
        '5'
    } else if d == 6 {
        '6'
    } else if d == 7 {
        '7'
    } else if d == 8 {
        '8'
    } else {
        '9'
    }
}

fn digit_char_exec(d: u64) -> (r: char)
    requires
        d < 10,
    ensures
        r == digit_char(d as nat),
{
    if d == 0 {
        '0'
    } else if d == 1 {
        '1'
    } else if d == 2 {
        '2'
    } else if d == 3 {
        '3'
    } else if d == 4 {
        '4'
    } else if d == 5 {
        '5'
    } else if d == 6 {
        '6'
    } else if d == 7 {
        '7'
    } else if d == 8 {
        '8'
    } else {
        '9'
    }
}

/// Digits of `n`, as characters.
pub fn u64_digit_chars(n: u64) -> (r: Vec<char>)
    ensures
        r@ == spec_u64_digits(n as nat),
    decreases n,
{
    if n < 10 {
        let mut v: Vec<char> = Vec::new();
        v.push(digit_char_exec(n));
        proof {
            assert(v@ =~= seq![digit_char(n as nat)]);
        }
        v
    } else {
        let mut v = u64_digit_chars(n / 10);
        v.push(digit_char_exec(n % 10));
        v
    }
}

/// Decimal rendering of an unsigned integer.
pub fn u64_string(n: u64) -> (r: String)
    ensures
        r@ == spec_u64_digits(n as nat),
{
    crate::strkit::string_of(u64_digit_chars(n))
}

/// Decimal rendering of a signed integer: `-` then digits when negative.
pub open spec fn spec_i64_digits(n: int) -> Seq<char> {
    if n >= 0 {
        spec_u64_digits(n as nat)
    } else {
        seq!['-'] + spec_u64_digits((-n) as nat)
    }
}

pub fn i64_string(n: i64) -> (r: String)
    ensures
        r@ == spec_i64_digits(n as int),
{
    if n >= 0 {
        u64_string(n as u64)
    } else {
        let mag: u64 = (-(n as i128)) as u64;
        let digits = u64_digit_chars(mag);
        let mut v: Vec<char> = Vec::new();
        v.push('-');
        let k = digits.len();
        for i in 0..k
            invariant
                k == digits@.len(),
                digits@ == spec_u64_digits(mag as nat),
                v@ == seq!['-'] + digits@.subrange(0, i as int),
        {
            v.push(digits[i]);
            proof {
                assert((seq!['-'] + digits@.subrange(0, i as int)).push(digits@[i as int])
                    =~= seq!['-'] + digits@.subrange(0, i + 1));
            }
        }
        proof {
            assert(digits@.subrange(0, k as int) =~= digits@);
        }
        crate::strkit::string_of(v)
    }
}

/// `n` rendered to at least `width` characters with leading zeros.
pub open spec fn spec_padded(n: nat, width: nat) -> Seq<char> {
    let d = spec_u64_digits(n);
    if d.len() >= width {
        d
    } else {
        Seq::new((width - d.len()) as nat, |i: int| '0') + d
    }
}

/// Zero-padded decimal rendering.
pub fn padded_u64_chars(n: u64, width: usize) -> (r: Vec<char>)
    ensures
        r@ == spec_padded(n as nat, width as nat),
{
    let digits = u64_digit_chars(n);
    if digits.len() >= width {
        proof {
            assert(digits@ =~= spec_padded(n as nat, width as nat));
        }
        return digits;
    }
    let pad = width - digits.len();
    let mut v: Vec<char> = Vec::new();
    for i in 0..pad
        invariant
            v@ == Seq::new(i as nat, |j: int| '0'),
    {
        v.push('0');
        proof {
            assert(Seq::new(i as nat, |j: int| '0').push('0') =~= Seq::new(
                (i + 1) as nat,
                |j: int| '0',
            ));
        }
    }
    let k = digits.len();
    for i in 0..k
        invariant
            k == digits@.len(),
            digits@ == spec_u64_digits(n as nat),
            k < width,
            pad == width - k,
            v@ == Seq::new(pad as nat, |j: int| '0') + digits@.subrange(0, i as int),
    {
        v.push(digits[i]);
        proof {
            assert((Seq::new(pad as nat, |j: int| '0') + digits@.subrange(0, i as int)).push(
                digits@[i as int],
            ) =~= Seq::new(pad as nat, |j: int| '0') + digits@.subrange(0, i + 1));
        }
    }
    proof {
        assert(digits@.subrange(0, k as int) =~= digits@);
    }
    v
}

} // verus!
