//! Turning numbers into text, and testing text for blankness.

use vstd::prelude::*;

verus! {

/// Calls `String::push`: appends `c`.
#[verifier::external_body]
pub(crate) fn push_char(s: &mut String, c: char)
    ensures
        final(s)@ == old(s)@.push(c),
{
    s.push(c)
}

/// The digit character for `d` (`0`-`9`, then `A`-`F`).
pub open spec fn digit_char(d: nat) -> char {
    if d < 10 {
        (48 + d) as char
    } else {
        (55 + d) as char
    }
}

/// The digits of `n` in base `b`, most significant first, without leading
/// zeros (`0` is written as one digit).
pub open spec fn digits(n: nat, b: nat) -> Seq<char>
    decreases n,
{
    if b < 2 || n < b {
        seq![digit_char(n)]
    } else {
        proof {
            assert(n / b < n) by (nonlinear_arith)
                requires
                    b >= 2,
                    n >= b,
            ;
        }
        digits(n / b, b).push(digit_char(n % b))
    }
}

/// `v` in decimal, with a leading `-` when negative.
pub open spec fn signed_decimal(v: int) -> Seq<char> {
    if v < 0 {
        seq!['-'] + digits((-v) as nat, 10)
    } else {
        digits(v as nat, 10)
    }
}

fn digit(d: u64) -> (c: char)
    requires
        d < 16,
    ensures
        c == digit_char(d as nat),
{
    let b: u8 = if d < 10 { 48 + d as u8 } else { 55 + d as u8 };
    b as char
}

/// `n` written in base `base` (2 to 16), as `format!` writes it.
pub fn to_digits(n: u64, base: u64) -> (r: String)
    requires
        2 <= base <= 16,
    ensures
        r@ == digits(n as nat, base as nat),
{
    let mut m = n;
    let mut acc: Vec<char> = Vec::new();
    let mut done = false;
    while !done
        invariant
            2 <= base <= 16,
            digits(n as nat, base as nat) == (if done { Seq::empty() } else { digits(m as nat, base as nat) }) + acc@,
        decreases (if done { 0int } else { m + 1 }),
    {
        let d = m % base;
        let ghost old_acc = acc@;
        acc.insert(0, digit(d));
        assert(acc@ =~= seq![digit_char(d as nat)] + old_acc);
        if m < base {
            done = true;
            assert(d == m) by (nonlinear_arith)
                requires
                    d == m % base,
                    m < base,
                    base >= 2,
            ;
            assert(digits(m as nat, base as nat) == seq![digit_char(m as nat)]);
            assert(Seq::<char>::empty() + acc@ =~= digits(m as nat, base as nat) + old_acc);
        } else {
            let ghost m0 = m;
            m = m / base;
            assert(digits(m0 as nat, base as nat) == digits(m as nat, base as nat).push(digit_char(d as nat)));
            assert(digits(m as nat, base as nat) + acc@ =~= digits(m0 as nat, base as nat) + old_acc);
        }
    }
    assert(Seq::<char>::empty() + acc@ =~= acc@);
    let mut s = String::new();
    let mut i: usize = 0;
    while i < acc.len()
        invariant
            i <= acc@.len(),
            s@ == acc@.take(i as int),
        decreases acc@.len() - i,
    {
        push_char(&mut s, acc[i]);
        i = i + 1;
        assert(s@ =~= acc@.take(i as int));
    }
    assert(acc@.take(i as int) =~= acc@);
    s
}

/// `v` in decimal, as `format!("{}", v)` writes it.
pub fn i64_to_decimal(v: i64) -> (r: String)
    ensures
        r@ == signed_decimal(v as int),
{
    if v < 0 {
        let mag: u64 = if v == i64::MIN { 9223372036854775808u64 } else { (-v) as u64 };
        let mut s = String::new();
        push_char(&mut s, '-');
        let d = to_digits(mag, 10);
        s.append(d.as_str());
        assert(s@ =~= seq!['-'] + digits((-(v as int)) as nat, 10));
        s
    } else {
        to_digits(v as u64, 10)
    }
}

/// `v` in upper-case hexadecimal, as `format!("{:X}", v)` writes it: a
/// negative value shows its two's complement bits.
pub fn i64_to_hex(v: i64) -> (r: String)
    ensures
        r@ == digits((v as u64) as nat, 16),
{
    to_digits(v as u64, 16)
}

/// The characters that `str::trim` removes: Unicode White_Space.
pub open spec fn is_white_space(c: char) -> bool {
    let n = c as u32;
    ||| 0x9 <= n <= 0xD
    ||| n == 0x20
    ||| n == 0x85
    ||| n == 0xA0
    ||| n == 0x1680
    ||| 0x2000 <= n <= 0x200A
    ||| n == 0x2028
    ||| n == 0x2029
    ||| n == 0x202F
    ||| n == 0x205F
    ||| n == 0x3000
}

fn white_space(c: char) -> (r: bool)
    ensures
        r == is_white_space(c),
{
    let n = c as u32;
    (0x9 <= n && n <= 0xD) || n == 0x20 || n == 0x85 || n == 0xA0 || n == 0x1680 || (0x2000 <= n
        && n <= 0x200A) || n == 0x2028 || n == 0x2029 || n == 0x202F || n == 0x205F || n == 0x3000
}

/// Whether `s` is empty once trimmed: every character is white space.
pub fn is_blank(s: &str) -> (r: bool)
    ensures
        r == (forall|i: int| 0 <= i < s@.len() ==> is_white_space(#[trigger] s@[i])),
{
    let n = s.unicode_len();
    let mut i: usize = 0;
    while i < n
        invariant
            n == s@.len(),
            i <= n,
            forall|j: int| 0 <= j < i ==> is_white_space(#[trigger] s@[j]),
        decreases n - i,
    {
        if !white_space(s.get_char(i)) {
            return false;
        }
        i = i + 1;
    }
    true
}

/// `s` padded on the left with `0` to at least `w` characters.
pub open spec fn zero_padded(s: Seq<char>, w: nat) -> Seq<char> {
    if s.len() >= w {
        s
    } else {
        Seq::new((w - s.len()) as nat, |i: int| '0') + s
    }
}

/// `n` in binary, padded with zeros to at least `w` digits.
pub fn binary_padded(n: u64, w: usize) -> (r: String)
    ensures
        r@ == zero_padded(digits(n as nat, 2), w as nat),
{
    let d = to_digits(n, 2);
    let len = d.unicode_len();
    let mut s = String::new();
    let mut k: usize = len;
    while k < w
        invariant
            len <= k,
            k <= w || k == len,
            s@ == Seq::new((k - len) as nat, |i: int| '0'),
        decreases w - k,
    {
        push_char(&mut s, '0');
        k = k + 1;
        assert(s@ =~= Seq::new((k - len) as nat, |i: int| '0'));
    }
    s.append(d.as_str());
    proof {
        if len >= w {
            assert(s@ =~= d@);
        } else {
            assert(k == w);
        }
    }
    s
}

/// Whether `q` is a prefix of `s`.
pub open spec fn is_prefix(q: Seq<char>, s: Seq<char>) -> bool {
    q.len() <= s.len() && s.subrange(0, q.len() as int) == q
}

/// Whether `q` occurs in `s` starting at `i`.
pub open spec fn occurs_at(q: Seq<char>, s: Seq<char>, i: int) -> bool {
    0 <= i && i + q.len() <= s.len() && s.subrange(i, i + q.len()) == q
}

/// Whether `q` occurs somewhere in `s`.
pub open spec fn is_substring(q: Seq<char>, s: Seq<char>) -> bool {
    exists|i: int| occurs_at(q, s, i)
}

/// Whether `q` occurs in `s` at `i` (`i + q.len() <= s.len()`).
fn matches_at(s: &str, q: &str, i: usize) -> (r: bool)
    requires
        i + q@.len() <= s@.len(),
    ensures
        r == occurs_at(q@, s@, i as int),
{
    let m = q.unicode_len();
    let n = s.unicode_len();
    let mut k: usize = 0;
    while k < m
        invariant
            m == q@.len(),
            n == s@.len(),
            i + m <= s@.len(),
            k <= m,
            forall|j: int| 0 <= j < k ==> s@[i + j] == #[trigger] q@[j],
        decreases m - k,
    {
        if s.get_char(i + k) != q.get_char(k) {
            assert(s@.subrange(i as int, i + m)[k as int] != q@[k as int]);
            return false;
        }
        k = k + 1;
    }
    assert(s@.subrange(i as int, i + m) =~= q@);
    true
}

/// Whether `s` starts with `q`.
pub fn starts_with(s: &str, q: &str) -> (r: bool)
    ensures
        r == is_prefix(q@, s@),
{
    if q.unicode_len() > s.unicode_len() {
        false
    } else {
        matches_at(s, q, 0)
    }
}

/// Whether `q` occurs somewhere in `s`.
pub fn contains(s: &str, q: &str) -> (r: bool)
    ensures
        r == is_substring(q@, s@),
{
    let n = s.unicode_len();
    let m = q.unicode_len();
    if m > n {
        assert forall|i: int| !occurs_at(q@, s@, i) by {}
        return false;
    }
    if m == 0 {
        assert(s@.subrange(0, 0) =~= q@);
        assert(occurs_at(q@, s@, 0));
        return true;
    }
    let mut i: usize = 0;
    while i <= n - m
        invariant
            n == s@.len(),
            m == q@.len(),
            1 <= m <= n,
            i <= n - m + 1,
            forall|j: int| 0 <= j < i ==> !occurs_at(q@, s@, j),
        decreases n - m + 1 - i,
    {
        if matches_at(s, q, i) {
            return true;
        }
        i = i + 1;
    }
    assert forall|j: int| !occurs_at(q@, s@, j) by {
        if 0 <= j && j < i {
        }
    }
    false
}

/// What `str::to_lowercase` makes of a string.
pub uninterp spec fn lowercase(s: Seq<char>) -> Seq<char>;

/// Calls `str::to_lowercase`: the string with each character replaced by its
/// Unicode lowercase mapping. The result is named, not spelt out.
#[verifier::external_body]
pub(crate) fn to_lowercase(s: &str) -> (r: String)
    ensures
        r@ == lowercase(s@),
{
    s.to_lowercase()
}

} // verus!
