use vstd::prelude::*;

verus! {

/// The character of a decimal digit.
pub open spec fn digit_char(d: nat) -> char {
    if d == 0 { '0' } else if d == 1 { '1' } else if d == 2 { '2' } else if d == 3 { '3' }
    else if d == 4 { '4' } else if d == 5 { '5' } else if d == 6 { '6' } else if d == 7 { '7' }
    else if d == 8 { '8' } else { '9' }
}

/// Decimal digits of a natural number, most significant first, without leading zeros.
pub open spec fn nat_digits(n: nat) -> Seq<char>
    decreases n,
{
    if n < 10 {
        seq![digit_char(n)]
    } else {
        nat_digits(n / 10).push(digit_char(n % 10))
    }
}

/// Decimal text of an integer: a minus sign for negative values, no grouping.
pub open spec fn int_text(n: int) -> Seq<char> {
    if n < 0 {
        seq!['-'] + nat_digits((-n) as nat)
    } else {
        nat_digits(n as nat)
    }
}

fn digit_str(d: u64) -> (r: &'static str)
    requires
        d < 10,
    ensures
        r@ == seq![digit_char(d as nat)],
{
    proof {
        reveal_strlit("0");
        reveal_strlit("1");
        reveal_strlit("2");
        reveal_strlit("3");
        reveal_strlit("4");
        reveal_strlit("5");
        reveal_strlit("6");
        reveal_strlit("7");
        reveal_strlit("8");
        reveal_strlit("9");
    }
    if d == 0 { "0" } else if d == 1 { "1" } else if d == 2 { "2" } else if d == 3 { "3" }
    else if d == 4 { "4" } else if d == 5 { "5" } else if d == 6 { "6" } else if d == 7 { "7" }
    else if d == 8 { "8" } else { "9" }
}

/// Appends the decimal digits of `n` to `out`.
fn push_nat_digits(out: &mut String, n: u64)
    ensures
        final(out)@ == old(out)@ + nat_digits(n as nat),
    decreases n,
{
    if n < 10 {
        out.append(digit_str(n));
    } else {
        push_nat_digits(out, n / 10);
        out.append(digit_str(n % 10));
        assert(out@ =~= old(out)@ + nat_digits(n as nat));
    }
}

/// Appends the decimal text of `n` to `out`.
pub fn push_int_text(out: &mut String, n: i64)
    ensures
        final(out)@ == old(out)@ + int_text(n as int),
{
    if n < 0 {
        proof {
            reveal_strlit("-");
        }
        out.append("-");
        let magnitude: u64 = (-(n as i128)) as u64;
        push_nat_digits(out, magnitude);
        assert(out@ =~= old(out)@ + int_text(n as int));
    } else {
        push_nat_digits(out, n as u64);
    }
}

/// A decimal digit character.
pub open spec fn is_digit(c: char) -> bool {
    '0' <= c <= '9'
}

/// Value of a run of decimal digits, most significant first.
pub open spec fn digits_value(s: Seq<char>) -> int
    decreases s.len(),
{
    if s.len() == 0 {
        0
    } else {
        digits_value(s.drop_last()) * 10 + (s.last() as int - '0' as int)
    }
}

/// One or more decimal digits.
pub open spec fn all_digits(s: Seq<char>) -> bool {
    s.len() > 0 && forall|i: int| 0 <= i < s.len() ==> is_digit(s[i])
}

/// Value of `s` when it is an optional sign followed by decimal digits.
pub open spec fn integer_value(s: Seq<char>) -> Option<int> {
    if s.len() > 0 && (s[0] == '+' || s[0] == '-') {
        if all_digits(s.drop_first()) {
            Some(
                if s[0] == '-' {
                    -digits_value(s.drop_first())
                } else {
                    digits_value(s.drop_first())
                },
            )
        } else {
            None
        }
    } else if all_digits(s) {
        Some(digits_value(s))
    } else {
        None
    }
}

/// Quantity denoted by the text of a quantity field: its integer value when the text is an
/// integer within the range of `i64`, and zero otherwise.
pub open spec fn quantity_value(s: Seq<char>) -> int {
    match integer_value(s) {
        Some(v) => if i64::MIN <= v <= i64::MAX {
            v
        } else {
            0
        },
        None => 0,
    }
}

/// The value of a run of digits is at least that of any of its prefixes.
proof fn lemma_digits_value_grows(s: Seq<char>, k: int)
    requires
        0 <= k <= s.len(),
        forall|i: int| 0 <= i < s.len() ==> is_digit(s[i]),
    ensures
        0 <= digits_value(s.take(k)) <= digits_value(s),
    decreases s.len(),
{
    if k < s.len() {
        let t = s.drop_last();
        lemma_digits_value_grows(t, k);
        assert(t.take(k) =~= s.take(k));
        lemma_digits_value_grows(t, t.len() as int);
        assert(t.take(t.len() as int) =~= t);
    } else {
        assert(s.take(k) =~= s);
        if s.len() > 0 {
            lemma_digits_value_grows(s.drop_last(), s.len() - 1);
            assert(s.drop_last().take(s.len() - 1) =~= s.drop_last());
        }
    }
}

/// Reads the text of a quantity field. Text that is not an integer, or whose value does not
/// fit in an `i64`, counts as zero.
pub fn parse_quantity(text: &str) -> (r: i64)
    ensures
        r as int == quantity_value(text@),
{
    let n = text.unicode_len();
    if n == 0 {
        return 0;
    }
    let first = text.get_char(0);
    let signed = first == '+' || first == '-';
    let start: usize = if signed { 1 } else { 0 };
    let ghost body = text@.subrange(start as int, n as int);
    assert(signed ==> body =~= text@.drop_first());
    assert(!signed ==> body =~= text@);
    if start == n {
        return 0;
    }
    assert(!all_digits(body) ==> quantity_value(text@) == 0);
    assert(all_digits(body) && digits_value(body) > 9223372036854775808 ==> quantity_value(text@)
        == 0);
    let mut magnitude: u64 = 0;
    let mut i: usize = start;
    while i < n
        invariant
            n == text@.len(),
            start <= i <= n,
            body == text@.subrange(start as int, n as int),
            forall|k: int| 0 <= k < i - start ==> is_digit(body[k]),
            magnitude as int == digits_value(body.take(i - start)),
            magnitude <= 9223372036854775808u64,
            !all_digits(body) ==> quantity_value(text@) == 0,
            all_digits(body) && digits_value(body) > 9223372036854775808 ==> quantity_value(text@)
                == 0,
        decreases n - i,
    {
        let c = text.get_char(i);
        assert(body[i - start] == c);
        if !('0' <= c && c <= '9') {
            assert(!all_digits(body));
            return 0;
        }
        let d: u64 = (c as u32 - '0' as u32) as u64;
        assert(body.take(i - start + 1).drop_last() =~= body.take(i - start));
        if magnitude > 922337203685477580u64 || (magnitude == 922337203685477580u64 && d > 8) {
            proof {
                if all_digits(body) {
                    lemma_digits_value_grows(body, i - start + 1);
                }
            }
            return 0;
        }
        magnitude = magnitude * 10 + d;
        i = i + 1;
    }
    assert(body.take(n - start) =~= body);
    if first == '-' {
        if magnitude == 9223372036854775808u64 {
            i64::MIN
        } else {
            -(magnitude as i64)
        }
    } else if magnitude > 9223372036854775807u64 {
        0
    } else {
        magnitude as i64
    }
}

} // verus!
