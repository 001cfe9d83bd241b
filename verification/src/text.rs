//! Decimal numbers in text.

use vstd::prelude::*;
use vstd::string::*;

verus! {

/// The character that stands for a digit.
pub open spec fn digit_char(d: int) -> char {
    if d == 0 {
        '0'
    } else if d == 1 {
        '1'
    } else if d == 2 {
        '2'
    } else if d == 3 {
        '3'
    } else if d == 4 {
        '4'
    } else if d == 5 {
        '5'
    } else if d == 6 {
        '6'
    } else if d == 7 {
        '7'
    } else if d == 8 {
        '8'
    } else {
        '9'
    }
}

/// The decimal digits of `n`, without leading zeros.
pub open spec fn decimal(n: nat) -> Seq<char>
    decreases n,
{
    if n < 10 {
        seq![digit_char(n as int)]
    } else {
        decimal(n / 10).push(digit_char((n % 10) as int))
    }
}

/// The last `width` decimal digits of `n`, with leading zeros.
pub open spec fn low_digits(n: nat, width: nat) -> Seq<char>
    decreases width,
{
    if width == 0 {
        seq![]
    } else {
        low_digits(n / 10, (width - 1) as nat).push(digit_char((n % 10) as int))
    }
}

/// The decimal digits of `n`, filled up with zeros on the left to `width`.
pub open spec fn decimal_padded(n: nat, width: nat) -> Seq<char> {
    if decimal(n).len() >= width {
        decimal(n)
    } else {
        low_digits(n, width)
    }
}

/// The decimal digits of `n`, after a minus sign if it is negative.
pub open spec fn decimal_signed(n: int) -> Seq<char> {
    if n < 0 {
        seq!['-'] + decimal((-n) as nat)
    } else {
        decimal(n as nat)
    }
}

/// One digit as text.
fn digit_str(d: u64) -> (r: &'static str)
    requires
        d < 10,
    ensures
        r@ == seq![digit_char(d as int)],
{
    proof {
        reveal_strlit("0");
        reveal_strlit("1");
        reveal_strlit("2");
        reveal_strlit("3");
        reveal_strlit("4");
        reveal_strlit("5");
        reveal_strlit("6");
        reveal_strlit("7");
        reveal_strlit("8");
        reveal_strlit("9");
    }
    let r: &'static str = match d {
        0 => "0",
        1 => "1",
        2 => "2",
        3 => "3",
        4 => "4",
        5 => "5",
        6 => "6",
        7 => "7",
        8 => "8",
        _ => "9",
    };
    assert(r@ =~= seq![digit_char(d as int)]);
    r
}

/// Appends the decimal digits of `n`.
pub fn push_decimal(out: &mut String, n: u64)
    ensures
        final(out)@ == old(out)@ + decimal(n as nat),
    decreases n,
{
    if n >= 10 {
        push_decimal(out, n / 10);
    }
    out.append(digit_str(n % 10));
    assert(out@ =~= old(out)@ + decimal(n as nat));
}

/// Appends the decimal digits of `n`, after a minus sign if it is negative.
pub fn push_signed(out: &mut String, n: i64)
    ensures
        final(out)@ == old(out)@ + decimal_signed(n as int),
{
    if n < 0 {
        proof {
            reveal_strlit("-");
        }
        out.append("-");
        push_decimal(out, (-(n as i128)) as u64);
        assert(out@ =~= old(out)@ + decimal_signed(n as int));
    } else {
        push_decimal(out, n as u64);
    }
}

/// Appends the last `width` decimal digits of `n`.
fn push_low_digits(out: &mut String, n: u64, width: u32)
    ensures
        final(out)@ == old(out)@ + low_digits(n as nat, width as nat),
    decreases width,
{
    if width > 0 {
        push_low_digits(out, n / 10, width - 1);
        out.append(digit_str(n % 10));
    }
    assert(out@ =~= old(out)@ + low_digits(n as nat, width as nat));
}

/// Whether `n` has at least `width` decimal digits.
fn has_digits(n: u64, width: u32) -> (r: bool)
    ensures
        r == (decimal(n as nat).len() >= width),
    decreases width,
{
    if width <= 1 {
        true
    } else if n < 10 {
        false
    } else {
        has_digits(n / 10, width - 1)
    }
}

/// Appends the decimal digits of `n`, filled up with zeros to `width`.
pub fn push_padded(out: &mut String, n: u64, width: u32)
    ensures
        final(out)@ == old(out)@ + decimal_padded(n as nat, width as nat),
{
    if has_digits(n, width) {
        push_decimal(out, n);
    } else {
        push_low_digits(out, n, width);
    }
}

/// Whether two texts are the same.
pub fn same_text(a: &str, b: &str) -> (r: bool)
    ensures
        r == (a@ == b@),
{
    let n: usize = a.unicode_len();
    if n != b.unicode_len() {
        return false;
    }
    let mut i: usize = 0;
    while i < n
        invariant
            i <= n,
            n == a@.len(),
            n == b@.len(),
            forall|k: int| 0 <= k < i ==> a@[k] == b@[k],
        decreases n - i,
    {
        if a.get_char(i) != b.get_char(i) {
            return false;
        }
        i = i + 1;
    }
    assert(a@ =~= b@);
    true
}

/// The first text comes to its end, or has the smaller character, at `k`, and up
/// to there the texts are the same.
pub open spec fn less_at(a: Seq<char>, b: Seq<char>, k: int) -> bool {
    &&& 0 <= k <= a.len()
    &&& k < b.len()
    &&& forall|j: int| 0 <= j < k ==> #[trigger] a[j] == b[j]
    &&& k == a.len() || (a[k] as int) < (b[k] as int)
}

/// The first text comes before the second in the order of their characters.
pub open spec fn less(a: Seq<char>, b: Seq<char>) -> bool {
    exists|k: int| #[trigger] less_at(a, b, k)
}

/// No text comes before itself.
pub proof fn lemma_less_irreflexive(a: Seq<char>)
    ensures
        !less(a, a),
{
}

/// What comes before a text comes before all texts behind it.
pub proof fn lemma_less_transitive(a: Seq<char>, b: Seq<char>, c: Seq<char>)
    requires
        less(a, b),
        less(b, c),
    ensures
        less(a, c),
{
    let i = choose|k: int| #[trigger] less_at(a, b, k);
    let j = choose|k: int| #[trigger] less_at(b, c, k);
    let k = if i < j {
        i
    } else {
        j
    };
    assert forall|m: int| 0 <= m < k implies #[trigger] a[m] == c[m] by {
        assert(a[m] == b[m]);
    }
    if j < i {
        assert(a[j] == b[j]);
    } else if i < j {
        assert(b[i] == c[i]);
    }
    assert(less_at(a, c, k));
}

/// Of two different texts one comes before the other.
pub proof fn lemma_less_total(a: Seq<char>, b: Seq<char>)
    ensures
        a == b || less(a, b) || less(b, a),
{
    lemma_less_from(a, b, 0);
}

/// Of two different texts that are the same up to `k` one comes before the other.
proof fn lemma_less_from(a: Seq<char>, b: Seq<char>, k: int)
    requires
        0 <= k <= a.len(),
        k <= b.len(),
        forall|j: int| 0 <= j < k ==> #[trigger] a[j] == b[j],
    ensures
        a == b || less(a, b) || less(b, a),
    decreases a.len() - k,
{
    if k == a.len() {
        if k == b.len() {
            assert(a =~= b);
        } else {
            assert(less_at(a, b, k));
        }
    } else if k == b.len() {
        assert(less_at(b, a, k));
    } else if (a[k] as int) < (b[k] as int) {
        assert(less_at(a, b, k));
    } else if (b[k] as int) < (a[k] as int) {
        assert(less_at(b, a, k));
    } else {
        lemma_less_from(a, b, k + 1);
    }
}

/// Whether the first text comes before the second.
pub fn is_less(a: &str, b: &str) -> (r: bool)
    ensures
        r == less(a@, b@),
{
    let n: usize = a.unicode_len();
    let m: usize = b.unicode_len();
    let mut i: usize = 0;
    while i < n && i < m
        invariant
            i <= n,
            i <= m,
            n == a@.len(),
            m == b@.len(),
            forall|j: int| 0 <= j < i ==> #[trigger] a@[j] == b@[j],
        decreases n - i,
    {
        let (x, y): (char, char) = (a.get_char(i), b.get_char(i));
        if x != y {
            proof {
                if (x as int) < (y as int) {
                    assert(less_at(a@, b@, i as int));
                } else {
                    assert forall|k: int| !#[trigger] less_at(a@, b@, k) by {
                        if k > i {
                            assert(a@[i as int] == x);
                        }
                    }
                }
            }
            return (x as u32) < (y as u32);
        }
        i = i + 1;
    }
    proof {
        if i < m {
            assert(less_at(a@, b@, i as int));
        } else {
            assert forall|k: int| !#[trigger] less_at(a@, b@, k) by {
                if 0 <= k < i {
                    assert(a@[k] == b@[k]);
                }
            }
        }
    }
    i < m
}

/// The number that a row of digits stands for.
pub open spec fn value_of(s: Seq<char>) -> int
    decreases s.len(),
{
    if s.len() == 0 {
        0
    } else {
        value_of(s.drop_last()) * 10 + (s.last() as int - '0' as int)
    }
}

/// All characters are digits.
pub open spec fn all_digits(s: Seq<char>) -> bool {
    forall|i: int| 0 <= i < s.len() ==> '0' as int <= #[trigger] s[i] as int <= '9' as int
}

/// The character of a digit stands for it.
proof fn lemma_digit(d: int)
    requires
        0 <= d < 10,
    ensures
        digit_char(d) as int == '0' as int + d,
        '0' as int <= digit_char(d) as int <= '9' as int,
{
}

/// The decimal digits of a number are digits and stand for the number, without a zero in
/// front.
pub proof fn law_decimal_reads_back(n: nat)
    ensures
        all_digits(decimal(n)),
        value_of(decimal(n)) == n,
        decimal(n).len() >= 1,
        n > 0 ==> decimal(n)[0] != '0',
    decreases n,
{
    lemma_digit((n % 10) as int);
    if n < 10 {
        let s = decimal(n);
        assert(s.drop_last() =~= Seq::<char>::empty());
        assert(value_of(s.drop_last()) == 0);
        lemma_digit(n as int);
    } else {
        law_decimal_reads_back(n / 10);
        let s = decimal(n);
        assert(s.drop_last() =~= decimal(n / 10));
        assert(s[0] == decimal(n / 10)[0]);
    }
}

/// The last digits of a number.
proof fn lemma_low_digits(n: nat, width: nat)
    ensures
        all_digits(low_digits(n, width)),
        low_digits(n, width).len() == width,
        decimal(n).len() <= width ==> value_of(low_digits(n, width)) == n,
    decreases width,
{
    if width > 0 {
        lemma_low_digits(n / 10, (width - 1) as nat);
        let s = low_digits(n, width);
        assert(s.drop_last() =~= low_digits(n / 10, (width - 1) as nat));
        lemma_digit((n % 10) as int);
        law_decimal_reads_back(n / 10);
        if decimal(n).len() <= width {
            if n >= 10 {
                assert(decimal(n / 10).len() == decimal(n).len() - 1);
            } else {
                assert(n / 10 == 0);
                if width > 1 {
                    assert(decimal(0).len() == 1);
                } else {
                    assert(value_of(low_digits(0, 0)) == 0);
                }
            }
        }
    } else {
        law_decimal_reads_back(n);
    }
}

/// The digits of a number that are filled up with zeros stand for the number and are as
/// many as asked for, or more if the number has more.
pub proof fn law_padded_reads_back(n: nat, width: nat)
    ensures
        all_digits(decimal_padded(n, width)),
        value_of(decimal_padded(n, width)) == n,
        decimal_padded(n, width).len() >= width,
        decimal_padded(n, width).len() == width || decimal_padded(n, width) == decimal(n),
{
    law_decimal_reads_back(n);
    lemma_low_digits(n, width);
}

/// The text of a number is its digits, after a minus sign if and only if it is negative.
pub proof fn law_signed_reads_back(n: int)
    ensures
        n < 0 <==> decimal_signed(n)[0] == '-',
        n >= 0 ==> all_digits(decimal_signed(n)) && value_of(decimal_signed(n)) == n,
        n < 0 ==> all_digits(decimal_signed(n).skip(1)) && value_of(decimal_signed(n).skip(1)) == -n,
{
    if n < 0 {
        law_decimal_reads_back((-n) as nat);
        assert(decimal_signed(n).skip(1) =~= decimal((-n) as nat));
    } else {
        law_decimal_reads_back(n as nat);
        assert('-' as int == 45 && '0' as int == 48);
        assert('0' as int <= decimal_signed(n)[0] as int);
    }
}

/// Of two texts that differ just one comes first. A text comes before all that begin with
/// it and go on, and of two that first differ in one place, the one with the smaller
/// character there.
pub proof fn law_texts_are_ordered(a: Seq<char>, b: Seq<char>, c: Seq<char>)
    ensures
        !less(a, a),
        less(a, b) ==> !less(b, a),
        a != b ==> less(a, b) || less(b, a),
        c.len() > 0 ==> less(a, a + c),
        less(a, b) && less(b, c) ==> less(a, c),
{
    if less(a, a) {
        let k = choose|k: int| #[trigger] less_at(a, a, k);
    }
    if less(a, b) && less(b, a) {
        let k = choose|k: int| #[trigger] less_at(a, b, k);
        let m = choose|m: int| #[trigger] less_at(b, a, m);
        if k < m {
            assert(b[k] == a[k]);
        } else if m < k {
            assert(a[m] == b[m]);
        }
    }
    if a != b {
        lemma_first_difference(a, b, 0);
    }
    if c.len() > 0 {
        assert(less_at(a, a + c, a.len() as int));
    }
    if less(a, b) && less(b, c) {
        let k = choose|k: int| #[trigger] less_at(a, b, k);
        let m = choose|m: int| #[trigger] less_at(b, c, m);
        let p = if k <= m {
            k
        } else {
            m
        };
        assert forall|j: int| 0 <= j < p implies #[trigger] a[j] == c[j] by {
            assert(a[j] == b[j] && b[j] == c[j]);
        }
        if k < m {
            assert(b[k] == c[k]);
        } else if m < k {
            assert(a[m] == b[m]);
        }
        assert(less_at(a, c, p));
    }
}

/// Of two texts that differ from a place on, one comes first.
proof fn lemma_first_difference(a: Seq<char>, b: Seq<char>, k: int)
    requires
        0 <= k <= a.len(),
        k <= b.len(),
        a != b,
        forall|j: int| 0 <= j < k ==> #[trigger] a[j] == b[j],
    ensures
        less(a, b) || less(b, a),
    decreases a.len() - k,
{
    if k == a.len() {
        if k == b.len() {
            assert(a =~= b);
        }
        assert(less_at(a, b, k));
    } else if k == b.len() {
        assert forall|j: int| 0 <= j < k implies #[trigger] b[j] == a[j] by {
            assert(a[j] == b[j]);
        }
        assert(less_at(b, a, k));
    } else if a[k] == b[k] {
        lemma_first_difference(a, b, k + 1);
    } else {
        assert forall|j: int| 0 <= j < k implies #[trigger] b[j] == a[j] by {
            assert(a[j] == b[j]);
        }
        assert(less_at(a, b, k) || less_at(b, a, k));
    }
}

} // verus!
