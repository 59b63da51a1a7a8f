//! Text primitives: decimal numerals, unsigned integer parsing, comparison and
//! substitution, all over sequences of characters.
use vstd::prelude::*;

verus! {

/// The character of the decimal digit `d`.
pub open spec fn digit_char(d: nat) -> char {
    (48 + d) as char
}

/// The decimal numeral of `n`, without leading zeros.
pub open spec fn decimal(n: nat) -> Seq<char>
    decreases n,
{
    if n < 10 {
        seq![digit_char(n)]
    } else {
        decimal(n / 10).push(digit_char(n % 10))
    }
}

pub open spec fn is_digit(c: char) -> bool {
    '0' <= c && c <= '9'
}

pub open spec fn digit_value(c: char) -> nat {
    (c as int - 48) as nat
}

/// Why a text is not an unsigned integer.
#[derive(Clone, Copy, Debug, PartialEq, Eq, Structural)]
pub enum IntegerError {
    /// The text is empty.
    Empty,
    /// A character is no digit, or there is a sign and nothing else.
    InvalidDigit,
    /// The number is larger than the type can hold.
    Overflow,
}

/// The number that a run of digits denotes, as far as it is at most `max`; the
/// leftmost character that is no digit, or that carries the number over `max`,
/// decides the error.
pub open spec fn read_digits(s: Seq<char>, max: nat) -> Result<nat, IntegerError>
    decreases s.len(),
{
    if s.len() == 0 {
        Ok(0)
    } else {
        match read_digits(s.drop_last(), max) {
            Err(e) => Err(e),
            Ok(v) => if !is_digit(s.last()) {
                Err(IntegerError::InvalidDigit)
            } else if v * 10 + digit_value(s.last()) > max {
                Err(IntegerError::Overflow)
            } else {
                Ok(v * 10 + digit_value(s.last()))
            },
        }
    }
}

/// An unsigned integer is an optional `+` followed by at least one digit.
pub open spec fn read_unsigned(s: Seq<char>, max: nat) -> Result<nat, IntegerError> {
    if s.len() == 0 {
        Err(IntegerError::Empty)
    } else if s[0] == '+' {
        if s.len() == 1 {
            Err(IntegerError::InvalidDigit)
        } else {
            read_digits(s.skip(1), max)
        }
    } else {
        read_digits(s, max)
    }
}

/// `s` with every occurrence of `token` replaced by `value`, leftmost first and
/// without overlaps.
pub open spec fn replaced(s: Seq<char>, token: Seq<char>, value: Seq<char>) -> Seq<char>
    decreases s.len(),
{
    if s.len() == 0 || token.len() == 0 {
        s
    } else if token.is_prefix_of(s) {
        value + replaced(s.skip(token.len() as int), token, value)
    } else {
        seq![s[0]] + replaced(s.skip(1), token, value)
    }
}

/// Whether `part` stands somewhere in `s`.
pub open spec fn contains_text(s: Seq<char>, part: Seq<char>) -> bool {
    exists|i: int| 0 <= i <= s.len() && part.is_prefix_of(#[trigger] s.skip(i))
}

pub(crate) fn digit_text(d: u64) -> (r: &'static str)
    requires
        d < 10,
    ensures
        r@ == seq![digit_char(d as nat)],
{
    proof {
        reveal_strlit("0");
        reveal_strlit("1");
        reveal_strlit("2");
        reveal_strlit("3");
        reveal_strlit("4");
        reveal_strlit("5");
        reveal_strlit("6");
        reveal_strlit("7");
        reveal_strlit("8");
        reveal_strlit("9");
    }
    if d == 0 {
        "0"
    } else if d == 1 {
        "1"
    } else if d == 2 {
        "2"
    } else if d == 3 {
        "3"
    } else if d == 4 {
        "4"
    } else if d == 5 {
        "5"
    } else if d == 6 {
        "6"
    } else if d == 7 {
        "7"
    } else if d == 8 {
        "8"
    } else {
        "9"
    }
}

/// Writes a number as its decimal numeral.
pub fn decimal_text(n: u64) -> (r: String)
    ensures
        r@ == decimal(n as nat),
    decreases n,
{
    if n < 10 {
        digit_text(n).to_owned()
    } else {
        let mut r = decimal_text(n / 10);
        r.append(digit_text(n % 10));
        r
    }
}

/// The characters of a text.
pub fn characters(s: &str) -> (r: Vec<char>)
    ensures
        r@ == s@,
{
    let mut r: Vec<char> = Vec::new();
    for c in it: s.chars()
        invariant
            it.seq() == s@,
            r@ == s@.take(it.index() as int),
    {
        r.push(c);
    }
    assert(s@.take(s@.len() as int) == s@);
    r
}

/// Whether two texts hold the same characters.
pub fn same_text(a: &str, b: &str) -> (r: bool)
    ensures
        r == (a@ == b@),
{
    let x = characters(a);
    let y = characters(b);
    if x.len() != y.len() {
        return false;
    }
    let mut i: usize = 0;
    while i < x.len()
        invariant
            x@ == a@,
            y@ == b@,
            x.len() == y.len(),
            i <= x.len(),
            forall|j: int| 0 <= j < i ==> x[j] == y[j],
        decreases x.len() - i,
    {
        if x[i] != y[i] {
            return false;
        }
        i += 1;
    }
    assert(x@ =~= y@);
    true
}

/// Reads a text as an unsigned integer of at most `max`.
pub fn parse_unsigned(s: &str, max: u64) -> (r: Result<u64, IntegerError>)
    ensures
        match r {
            Ok(v) => read_unsigned(s@, max as nat) == Ok::<nat, IntegerError>(v as nat),
            Err(e) => read_unsigned(s@, max as nat) == Err::<nat, IntegerError>(e),
        },
{
    let c = characters(s);
    if c.len() == 0 {
        return Err(IntegerError::Empty);
    }
    let start: usize = if c[0] == '+' { 1 } else { 0 };
    if c.len() == start {
        return Err(IntegerError::InvalidDigit);
    }
    let ghost digits = c@.skip(start as int);
    proof {
        assert(c@.skip(0) == c@);
    }
    let mut i: usize = start;
    let mut v: u64 = 0;
    while i < c.len()
        invariant
            start <= i <= c.len(),
            digits == c@.skip(start as int),
            read_unsigned(s@, max as nat) == read_digits(digits, max as nat),
            read_digits(digits.take(i - start), max as nat) == Ok::<nat, IntegerError>(v as nat),
            v <= max,
        decreases c.len() - i,
    {
        let ghost upto = digits.take(i + 1 - start);
        proof {
            assert(upto.drop_last() == digits.take(i - start));
            assert(upto.last() == c[i as int]);
            if read_digits(upto, max as nat) is Err {
                lemma_read_digits_error_stays(digits, (i + 1 - start) as nat, max as nat);
            }
        }
        let d = c[i];
        if d < '0' || d > '9' {
            return Err(IntegerError::InvalidDigit);
        }
        let x: u64 = (d as u32 - 48) as u64;
        let w: u128 = v as u128 * 10 + x as u128;
        if w > max as u128 {
            return Err(IntegerError::Overflow);
        }
        v = w as u64;
        i += 1;
    }
    assert(digits.take(i - start) == digits);
    Ok(v)
}

/// Whether `token` stands in `s` at position `at`.
fn stands_at(s: &Vec<char>, at: usize, token: &Vec<char>) -> (r: bool)
    requires
        at <= s.len(),
    ensures
        r == token@.is_prefix_of(s@.skip(at as int)),
{
    if token.len() > s.len() - at {
        return false;
    }
    let mut i: usize = 0;
    while i < token.len()
        invariant
            i <= token.len() <= s.len() - at,
            forall|j: int| 0 <= j < i ==> token[j] == s[at + j],
        decreases token.len() - i,
    {
        if token[i] != s[at + i] {
            assert(s@.skip(at as int)[i as int] == s[at + i]);
            return false;
        }
        i += 1;
    }
    assert(token@ =~= s@.skip(at as int).subrange(0, token.len() as int));
    true
}

/// Replaces every occurrence of `token` in `s` by `value`.
pub fn replace_all(s: &str, token: &str, value: &str) -> (r: String)
    requires
        token@.len() > 0,
    ensures
        r@ == replaced(s@, token@, value@),
{
    let c = characters(s);
    let t = characters(token);
    let mut out = String::new();
    let mut start: usize = 0;
    let mut i: usize = 0;
    proof {
        assert(s@.skip(0) == s@);
        assert(out@ + s@.subrange(0, 0) + replaced(s@.skip(0), token@, value@) =~= replaced(
            s@,
            token@,
            value@,
        ));
    }
    while i < c.len()
        invariant
            c@ == s@,
            t@ == token@,
            t.len() > 0,
            start <= i <= c.len(),
            replaced(s@, token@, value@) == out@ + s@.subrange(start as int, i as int) + replaced(
                s@.skip(i as int),
                token@,
                value@,
            ),
        decreases c.len() - i,
    {
        let ghost rest = s@.skip(i as int);
        if stands_at(&c, i, &t) {
            out.append(s.substring_char(start, i));
            out.append(value);
            proof {
                let n = token@.len() as int;
                assert(rest.skip(n) == s@.skip(i + n));
                assert(s@.subrange(i + n, i + n) == Seq::<char>::empty());
            }
            i += t.len();
            start = i;
        } else {
            proof {
                assert(rest.skip(1) == s@.skip(i + 1));
                assert(s@.subrange(start as int, i + 1) == s@.subrange(start as int, i as int)
                    + seq![rest[0]]);
            }
            i += 1;
        }
    }
    out.append(s.substring_char(start, i));
    assert(s@.skip(i as int) == Seq::<char>::empty());
    out
}

/// An error found in the first characters is the error of the whole run.
proof fn lemma_read_digits_error_stays(s: Seq<char>, k: nat, max: nat)
    requires
        k <= s.len(),
        read_digits(s.take(k as int), max) is Err,
    ensures
        read_digits(s, max) == read_digits(s.take(k as int), max),
    decreases s.len() - k,
{
    if k == s.len() {
        assert(s.take(k as int) == s);
    } else {
        assert(s.take(k as int + 1).drop_last() == s.take(k as int));
        lemma_read_digits_error_stays(s, k + 1, max);
    }
}

/// A numeral has at least one character, and all of them are digits.
pub proof fn lemma_decimal_digits(n: nat)
    ensures
        decimal(n).len() >= 1,
        forall|i: int| 0 <= i < decimal(n).len() ==> is_digit(#[trigger] decimal(n)[i]),
    decreases n,
{
    if n >= 10 {
        lemma_decimal_digits(n / 10);
        assert forall|i: int| 0 <= i < decimal(n).len() implies is_digit(
            #[trigger] decimal(n)[i],
        ) by {
            if i < decimal(n / 10).len() {
                assert(decimal(n)[i] == decimal(n / 10)[i]);
            }
        }
    }
}

/// The digits of a numeral denote the number.
pub proof fn lemma_read_decimal(n: nat, max: nat)
    requires
        n <= max,
    ensures
        read_digits(decimal(n), max) == Ok::<nat, IntegerError>(n),
    decreases n,
{
    let s = decimal(n);
    if n < 10 {
        assert(s.drop_last() == Seq::<char>::empty());
        assert(read_digits(s.drop_last(), max) == Ok::<nat, IntegerError>(0));
    } else {
        lemma_read_decimal(n / 10, max);
        assert(s.drop_last() == decimal(n / 10));
    }
}

/// A number that was written is read back unchanged.
pub proof fn law_decimal_reads_back(n: nat, max: nat)
    requires
        n <= max,
    ensures
        read_unsigned(decimal(n), max) == Ok::<nat, IntegerError>(n),
{
    lemma_decimal_digits(n);
    lemma_read_decimal(n, max);
    assert(is_digit(decimal(n)[0]));
}

/// The first occurrence of a token, from the left, makes way for the value, and so does
/// each one behind it; what stands before stays.
pub proof fn law_first_occurrence_is_replaced(
    s: Seq<char>,
    token: Seq<char>,
    value: Seq<char>,
    i: int,
)
    requires
        token.len() > 0,
        0 <= i <= s.len(),
        forall|j: int| 0 <= j < i ==> !(#[trigger] token.is_prefix_of(s.skip(j))),
        token.is_prefix_of(s.skip(i)),
    ensures
        replaced(s, token, value) == s.take(i) + value + replaced(
            s.skip(i + token.len()),
            token,
            value,
        ),
    decreases i,
{
    assert(s.skip(0) == s);
    if i == 0 {
        assert(s.take(0) + value =~= value);
    } else {
        let rest = s.skip(1);
        assert(!token.is_prefix_of(s.skip(0)));
        assert(s.len() > 0);
        assert forall|j: int| 0 <= j < i - 1 implies !(#[trigger] token.is_prefix_of(
            rest.skip(j),
        )) by {
            assert(rest.skip(j) == s.skip(j + 1));
        }
        assert(rest.skip(i - 1) == s.skip(i));
        assert(rest.skip(i - 1 + token.len()) =~= s.skip(i + token.len()));
        law_first_occurrence_is_replaced(rest, token, value, i - 1);
        assert(seq![s[0]] + rest.take(i - 1) =~= s.take(i));
        assert(replaced(s, token, value) =~= s.take(i) + value + replaced(
            s.skip(i + token.len()),
            token,
            value,
        ));
    }
}

/// A text in which a token does not stand is left as it is.
pub proof fn law_nothing_else_is_replaced(s: Seq<char>, token: Seq<char>, value: Seq<char>)
    requires
        token.len() > 0,
        forall|j: int| 0 <= j < s.len() ==> !(#[trigger] token.is_prefix_of(s.skip(j))),
    ensures
        replaced(s, token, value) == s,
    decreases s.len(),
{
    if s.len() > 0 {
        assert(s.skip(0) == s);
        assert(!token.is_prefix_of(s.skip(0)));
        let rest = s.skip(1);
        assert forall|j: int| 0 <= j < rest.len() implies !(#[trigger] token.is_prefix_of(
            rest.skip(j),
        )) by {
            assert(rest.skip(j) == s.skip(j + 1));
        }
        law_nothing_else_is_replaced(rest, token, value);
        assert(replaced(s, token, value) =~= s);
    }
}

/// The number that some characters denote as digits, the last one in the units.
pub open spec fn positional(s: Seq<char>) -> int {
    s.fold_left(0int, |v: int, c: char| v * 10 + (c as int - '0' as int))
}

/// Whether all characters are digits.
pub open spec fn all_digits(s: Seq<char>) -> bool {
    forall|i: int| 0 <= i < s.len() ==> '0' <= #[trigger] s[i] && s[i] <= '9'
}

/// A numeral is made of digits, denotes its number, and has no zero to spare in front.
pub proof fn law_numeral_denotes_its_number(n: nat)
    ensures
        all_digits(decimal(n)),
        positional(decimal(n)) == n,
        decimal(n).len() >= 1,
        decimal(n)[0] == '0' ==> n == 0 && decimal(n).len() == 1,
    decreases n,
{
    let s = decimal(n);
    if n < 10 {
        assert(s.drop_last() =~= Seq::<char>::empty());
        assert(positional(s.drop_last()) == 0);
    } else {
        law_numeral_denotes_its_number(n / 10);
        let t = decimal(n / 10);
        assert(s.drop_last() =~= t);
        assert(s[0] == t[0]);
        assert forall|i: int| 0 <= i < s.len() implies '0' <= #[trigger] s[i] && s[i] <= '9' by {
            if i < t.len() {
                assert(s[i] == t[i]);
            }
        }
    }
}

proof fn lemma_positional(s: Seq<char>)
    requires
        all_digits(s),
        s.len() > 0,
    ensures
        all_digits(s.drop_last()),
        positional(s) == positional(s.drop_last()) * 10 + (s.last() as int - 48),
        0 <= positional(s.drop_last()) <= positional(s),
    decreases s.len(),
{
    let t = s.drop_last();
    assert forall|i: int| 0 <= i < t.len() implies '0' <= #[trigger] t[i] && t[i] <= '9' by {
        assert(t[i] == s[i]);
    }
    assert('0' <= s[s.len() - 1] && s[s.len() - 1] <= '9');
    if t.len() > 0 {
        lemma_positional(t);
    } else {
        assert(positional(t) == 0);
    }
}

proof fn lemma_read_positional(s: Seq<char>, max: nat)
    ensures
        all_digits(s) && positional(s) <= max ==> read_digits(s, max) == Ok::<nat, IntegerError>(
            positional(s) as nat,
        ),
        all_digits(s) && positional(s) > max ==> read_digits(s, max) == Err::<nat, IntegerError>(
            IntegerError::Overflow,
        ),
        all_digits(s) ==> positional(s) >= 0,
        read_digits(s, max) is Ok ==> all_digits(s),
        read_digits(s, max) != Err::<nat, IntegerError>(IntegerError::Empty),
    decreases s.len(),
{
    if s.len() == 0 {
        assert(positional(s) == 0);
    } else {
        lemma_read_positional(s.drop_last(), max);
        if all_digits(s) {
            lemma_positional(s);
        }
        if read_digits(s, max) is Ok {
            let t = s.drop_last();
            assert forall|i: int| 0 <= i < s.len() implies '0' <= #[trigger] s[i] && s[i]
                <= '9' by {
                if i < t.len() {
                    assert(s[i] == t[i]);
                }
            }
        }
    }
}

/// An unsigned integer is read exactly where a text is a row of digits, after a plus sign
/// or not, that denotes a number of at most `max`; a larger number is an overflow, and only
/// the empty text is empty.
pub proof fn law_integers_are_read_exactly(s: Seq<char>, max: nat, v: nat)
    ensures
        ({
            let digits = if s.len() > 0 && s[0] == '+' {
                s.skip(1)
            } else {
                s
            };
            &&& read_unsigned(s, max) == Ok::<nat, IntegerError>(v) <==> digits.len() > 0
                && all_digits(digits) && positional(digits) == v && v <= max
            &&& read_unsigned(s, max) == Err::<nat, IntegerError>(IntegerError::Empty) <==> s.len()
                == 0
            &&& digits.len() > 0 && all_digits(digits) && positional(digits) > max ==> read_unsigned(
                s,
                max,
            ) == Err::<nat, IntegerError>(IntegerError::Overflow)
        }),
{
    let digits = if s.len() > 0 && s[0] == '+' {
        s.skip(1)
    } else {
        s
    };
    lemma_read_positional(digits, max);
}

/// A text whose first characters denote a number of at most `max` and are followed by one
/// that is no digit is refused for that one, whatever comes behind it.
pub proof fn law_first_wrong_character_decides(s: Seq<char>, max: nat, i: int)
    requires
        s.len() > 0,
        s[0] != '+',
        0 <= i < s.len(),
        all_digits(s.take(i)),
        positional(s.take(i)) <= max,
        !('0' <= s[i] && s[i] <= '9'),
    ensures
        read_unsigned(s, max) == Err::<nat, IntegerError>(IntegerError::InvalidDigit),
{
    lemma_read_positional(s.take(i), max);
    assert(s.take(i + 1).drop_last() =~= s.take(i));
    lemma_read_digits_error_stays(s, (i + 1) as nat, max);
}

} // verus!
