//! Character-level helpers shared by the filename parser and the message builders.
use vstd::prelude::*;

verus! {

/// An ASCII decimal digit `0`..=`9`.
pub open spec fn is_ascii_digit(c: char) -> bool {
    '0' <= c && c <= '9'
}

/// A character allowed in a migration name: ASCII letter, ASCII digit or `_`.
pub open spec fn is_name_char(c: char) -> bool {
    ||| is_ascii_digit(c)
    ||| ('a' <= c && c <= 'z')
    ||| ('A' <= c && c <= 'Z')
    ||| c == '_'
}

/// Every character of `s` is an ASCII digit.
pub open spec fn all_digits(s: Seq<char>) -> bool {
    forall|i: int| 0 <= i < s.len() ==> is_ascii_digit(#[trigger] s[i])
}

/// Every character of `s` is allowed in a migration name.
pub open spec fn all_name_chars(s: Seq<char>) -> bool {
    forall|i: int| 0 <= i < s.len() ==> is_name_char(#[trigger] s[i])
}

/// The numeric value of an ASCII digit.
pub open spec fn digit_value(c: char) -> nat {
    ((c as int) - ('0' as int)) as nat
}

/// The value of a string of decimal digits, most significant first
/// (leading zeros add nothing; the empty string has value 0).
pub open spec fn decimal_value(s: Seq<char>) -> nat
    decreases s.len(),
{
    if s.len() == 0 {
        0
    } else {
        decimal_value(s.drop_last()) * 10 + digit_value(s.last())
    }
}

/// `i` is the position of the last occurrence of `c` in `s`.
pub open spec fn is_last_index(s: Seq<char>, c: char, i: int) -> bool {
    &&& 0 <= i < s.len()
    &&& s[i] == c
    &&& forall|j: int| i < j < s.len() ==> s[j] != c
}

/// `i` is the position of the first occurrence of `c` in `s`.
pub open spec fn is_first_index(s: Seq<char>, c: char, i: int) -> bool {
    &&& 0 <= i < s.len()
    &&& s[i] == c
    &&& forall|j: int| 0 <= j < i ==> s[j] != c
}

/// The position of the last occurrence of `c` in `s`, if any.
pub open spec fn last_index(s: Seq<char>, c: char) -> Option<int> {
    if exists|i: int| is_last_index(s, c, i) {
        Some(choose|i: int| is_last_index(s, c, i))
    } else {
        None
    }
}

/// The position of the first occurrence of `c` in `s`, if any.
pub open spec fn first_index(s: Seq<char>, c: char) -> Option<int> {
    if exists|i: int| is_first_index(s, c, i) {
        Some(choose|i: int| is_first_index(s, c, i))
    } else {
        None
    }
}

/// The digit character for `d` (`0`-`9`, then lower-case `a`-`f`).
pub open spec fn digit_char(d: nat) -> char {
    if d < 10 {
        (('0' as int) + d) as char
    } else {
        (('a' as int) + d - 10) as char
    }
}

/// `n` written in base `radix` with lower-case digits, most significant first,
/// without leading zeros (zero is written as `0`).
pub open spec fn radix_digits(n: nat, radix: nat) -> Seq<char>
    decreases n,
{
    if radix < 2 || n < radix {
        seq![digit_char(n)]
    } else {
        proof {
            assert(n / radix < n) by (nonlinear_arith)
                requires
                    radix >= 2,
                    n >= radix,
            ;
        }
        radix_digits(n / radix, radix) + seq![digit_char(n % radix)]
    }
}

/// `n` in decimal.
pub open spec fn decimal_digits(n: nat) -> Seq<char> {
    radix_digits(n, 10)
}

/// `n` in lower-case hexadecimal, without a prefix.
pub open spec fn hex_digits(n: nat) -> Seq<char> {
    radix_digits(n, 16)
}

proof fn lemma_decimal_value_prefix(s: Seq<char>, k: int)
    requires
        0 <= k <= s.len(),
    ensures
        decimal_value(s.take(k)) <= decimal_value(s),
    decreases s.len(),
{
    if k < s.len() {
        assert(s.drop_last().take(k) =~= s.take(k));
        lemma_decimal_value_prefix(s.drop_last(), k);
    } else {
        assert(s.take(k) =~= s);
    }
}

/// Leading zeros do not change the value of a digit string.
pub proof fn lemma_decimal_value_leading_zero(s: Seq<char>)
    ensures
        decimal_value(seq!['0'] + s) == decimal_value(s),
    decreases s.len(),
{
    if s.len() == 0 {
        assert((seq!['0'] + s).drop_last() =~= Seq::<char>::empty());
        assert((seq!['0'] + s).last() == '0');
        assert(decimal_value(Seq::<char>::empty()) == 0);
    } else {
        assert((seq!['0'] + s).drop_last() =~= seq!['0'] + s.drop_last());
        assert((seq!['0'] + s).last() == s.last());
        lemma_decimal_value_leading_zero(s.drop_last());
    }
}

/// A last occurrence, once found, is the one `last_index` names.
pub proof fn lemma_last_index_is(s: Seq<char>, c: char, i: int)
    requires
        is_last_index(s, c, i),
    ensures
        last_index(s, c) == Some(i),
{
    let chosen = choose|j: int| is_last_index(s, c, j);
    assert(is_last_index(s, c, chosen));
    if chosen < i {
        assert(s[i] == c);
    } else if chosen > i {
        assert(s[chosen] == c);
    }
}

/// A first occurrence, once found, is the one `first_index` names.
pub proof fn lemma_first_index_is(s: Seq<char>, c: char, i: int)
    requires
        is_first_index(s, c, i),
    ensures
        first_index(s, c) == Some(i),
{
    let chosen = choose|j: int| is_first_index(s, c, j);
    assert(is_first_index(s, c, chosen));
    if chosen < i {
        assert(s[chosen] == c);
    } else if chosen > i {
        assert(s[i] == c);
    }
}

/// Prepending a character other than `c` shifts the last occurrence of `c` by one.
pub proof fn lemma_last_index_prepend(x: char, s: Seq<char>, c: char)
    requires
        x != c,
    ensures
        last_index(seq![x] + s, c) == match last_index(s, c) {
            Some(i) => Some(i + 1),
            None => None::<int>,
        },
{
    let t = seq![x] + s;
    if exists|i: int| is_last_index(s, c, i) {
        let i = choose|i: int| is_last_index(s, c, i);
        assert forall|j: int| i + 1 < j < t.len() implies t[j] != c by {
            assert(t[j] == s[j - 1]);
        }
        assert(is_last_index(t, c, i + 1));
        lemma_last_index_is(t, c, i + 1);
    } else {
        if exists|k: int| is_last_index(t, c, k) {
            let k = choose|k: int| is_last_index(t, c, k);
            assert(k >= 1);
            assert forall|j: int| k - 1 < j < s.len() implies s[j] != c by {
                assert(t[j + 1] == s[j]);
            }
            assert(is_last_index(s, c, k - 1));
        }
    }
}

/// Prepending a character other than `c` shifts the first occurrence of `c` by one.
pub proof fn lemma_first_index_prepend(x: char, s: Seq<char>, c: char)
    requires
        x != c,
    ensures
        first_index(seq![x] + s, c) == match first_index(s, c) {
            Some(i) => Some(i + 1),
            None => None::<int>,
        },
{
    let t = seq![x] + s;
    if exists|i: int| is_first_index(s, c, i) {
        let i = choose|i: int| is_first_index(s, c, i);
        assert forall|j: int| 0 <= j < i + 1 implies t[j] != c by {
            if j > 0 {
                assert(t[j] == s[j - 1]);
            }
        }
        assert(is_first_index(t, c, i + 1));
        lemma_first_index_is(t, c, i + 1);
    } else {
        if exists|k: int| is_first_index(t, c, k) {
            let k = choose|k: int| is_first_index(t, c, k);
            assert(k >= 1);
            assert forall|j: int| 0 <= j < k - 1 implies s[j] != c by {
                assert(t[j + 1] == s[j]);
            }
            assert(is_first_index(s, c, k - 1));
        }
    }
}

/// Writing a number in decimal and reading it back gives the number.
pub proof fn lemma_decimal_digits_value(n: nat)
    ensures
        decimal_digits(n).len() > 0,
        all_digits(decimal_digits(n)),
        decimal_value(decimal_digits(n)) == n,
    decreases n,
{
    let d = decimal_digits(n);
    if n < 10 {
        assert(d == seq![digit_char(n)]);
        assert(d.drop_last() =~= Seq::<char>::empty());
        assert(digit_value(digit_char(n)) == n);
        assert(decimal_value(Seq::<char>::empty()) == 0);
    } else {
        assert(n / 10 < n);
        lemma_decimal_digits_value(n / 10);
        let prefix = decimal_digits(n / 10);
        assert(d == prefix + seq![digit_char(n % 10)]);
        assert(d.drop_last() =~= prefix);
        assert(d.last() == digit_char(n % 10));
        assert(digit_value(digit_char(n % 10)) == n % 10);
        assert((n / 10) * 10 + n % 10 == n);
        assert forall|i: int| 0 <= i < d.len() implies is_ascii_digit(#[trigger] d[i]) by {
            if i < prefix.len() {
                assert(d[i] == prefix[i]);
            }
        }
    }
}

/// `k` zeros.
pub open spec fn zeros(k: nat) -> Seq<char> {
    Seq::new(k, |i: int| '0')
}

/// Copies the characters of `s` into a vector.
pub fn chars_of(s: &str) -> (r: Vec<char>)
    ensures
        r@ == s@,
{
    let mut r: Vec<char> = Vec::new();
    for c in it: s.chars()
        invariant
            r@ == it.seq().take(it.index() as int),
    {
        r.push(c);
    }
    r
}

/// Whether `c` is an ASCII digit.
pub fn char_is_ascii_digit(c: char) -> (b: bool)
    ensures
        b == is_ascii_digit(c),
{
    '0' <= c && c <= '9'
}

/// Whether `c` may appear in a migration name.
pub fn char_is_name_char(c: char) -> (b: bool)
    ensures
        b == is_name_char(c),
{
    ('0' <= c && c <= '9') || ('a' <= c && c <= 'z') || ('A' <= c && c <= 'Z') || c == '_'
}

/// Whether `cs[from..to]` holds exactly the characters of `word`.
pub fn range_equals(cs: &Vec<char>, from: usize, to: usize, word: &str) -> (b: bool)
    requires
        from <= to <= cs.len(),
    ensures
        b == (cs@.subrange(from as int, to as int) == word@),
{
    let w = chars_of(word);
    if to - from != w.len() {
        return false;
    }
    let mut k: usize = 0;
    while k < w.len()
        invariant
            from <= to <= cs.len(),
            to - from == w.len(),
            w@ == word@,
            k <= w.len(),
            forall|j: int| 0 <= j < k ==> cs@[from + j] == w@[j],
        decreases w.len() - k,
    {
        if cs[from + k] != w[k] {
            assert(cs@.subrange(from as int, to as int)[k as int] != word@[k as int]);
            return false;
        }
        k = k + 1;
    }
    assert(cs@.subrange(from as int, to as int) =~= word@);
    true
}

/// Whether every character of `cs[from..to]` is an ASCII digit.
pub fn range_all_digits(cs: &Vec<char>, from: usize, to: usize) -> (b: bool)
    requires
        from <= to <= cs.len(),
    ensures
        b == all_digits(cs@.subrange(from as int, to as int)),
{
    let mut k: usize = from;
    while k < to
        invariant
            from <= k <= to <= cs.len(),
            forall|j: int| from <= j < k ==> is_ascii_digit(cs@[j]),
        decreases to - k,
    {
        if !char_is_ascii_digit(cs[k]) {
            assert(!is_ascii_digit(cs@.subrange(from as int, to as int)[k - from]));
            return false;
        }
        k = k + 1;
    }
    assert forall|i: int| 0 <= i < to - from implies is_ascii_digit(
        #[trigger] cs@.subrange(from as int, to as int)[i],
    ) by {
        assert(cs@.subrange(from as int, to as int)[i] == cs@[from + i]);
    }
    true
}

/// Whether every character of `cs[from..to]` may appear in a migration name.
pub fn range_all_name_chars(cs: &Vec<char>, from: usize, to: usize) -> (b: bool)
    requires
        from <= to <= cs.len(),
    ensures
        b == all_name_chars(cs@.subrange(from as int, to as int)),
{
    let mut k: usize = from;
    while k < to
        invariant
            from <= k <= to <= cs.len(),
            forall|j: int| from <= j < k ==> is_name_char(cs@[j]),
        decreases to - k,
    {
        if !char_is_name_char(cs[k]) {
            assert(!is_name_char(cs@.subrange(from as int, to as int)[k - from]));
            return false;
        }
        k = k + 1;
    }
    assert forall|i: int| 0 <= i < to - from implies is_name_char(
        #[trigger] cs@.subrange(from as int, to as int)[i],
    ) by {
        assert(cs@.subrange(from as int, to as int)[i] == cs@[from + i]);
    }
    true
}

/// The last position before `end` that holds `c`.
pub fn find_last(cs: &Vec<char>, end: usize, c: char) -> (r: Option<usize>)
    requires
        end <= cs.len(),
    ensures
        match r {
            Some(i) => last_index(cs@.take(end as int), c) == Some(i as int),
            None => last_index(cs@.take(end as int), c) is None,
        },
{
    let ghost s = cs@.take(end as int);
    let mut k: usize = end;
    while k > 0
        invariant
            k <= end <= cs.len(),
            s == cs@.take(end as int),
            forall|j: int| k <= j < end ==> s[j] != c,
        decreases k,
    {
        if cs[k - 1] == c {
            let i = k - 1;
            proof {
                lemma_last_index_is(s, c, i as int);
            }
            return Some(i);
        }
        k = k - 1;
    }
    assert(!exists|i: int| is_last_index(s, c, i));
    None
}

/// The first position in `from..end` that holds `c`, counted from `from`.
pub fn find_first(cs: &Vec<char>, from: usize, end: usize, c: char) -> (r: Option<usize>)
    requires
        from <= end <= cs.len(),
    ensures
        match r {
            Some(i) => first_index(cs@.subrange(from as int, end as int), c) == Some(i as int),
            None => first_index(cs@.subrange(from as int, end as int), c) is None,
        },
{
    let ghost s = cs@.subrange(from as int, end as int);
    let mut k: usize = 0;
    while k < end - from
        invariant
            from <= end <= cs.len(),
            s == cs@.subrange(from as int, end as int),
            k <= end - from,
            forall|j: int| 0 <= j < k ==> s[j] != c,
        decreases end - from - k,
    {
        if cs[from + k] == c {
            assert(s[k as int] == c);
            proof {
                lemma_first_index_is(s, c, k as int);
            }
            return Some(k);
        }
        k = k + 1;
    }
    assert(!exists|i: int| is_first_index(s, c, i));
    None
}

/// The value of the digit string `cs[from..to]`, or `None` when it exceeds `u64::MAX`.
pub fn parse_decimal(cs: &Vec<char>, from: usize, to: usize) -> (r: Option<u64>)
    requires
        from <= to <= cs.len(),
        all_digits(cs@.subrange(from as int, to as int)),
    ensures
        match r {
            Some(v) => v == decimal_value(cs@.subrange(from as int, to as int)),
            None => decimal_value(cs@.subrange(from as int, to as int)) > u64::MAX,
        },
{
    let ghost s = cs@.subrange(from as int, to as int);
    let mut value: u64 = 0;
    let mut k: usize = from;
    assert(s.take(0) =~= Seq::<char>::empty());
    while k < to
        invariant
            from <= k <= to <= cs.len(),
            s == cs@.subrange(from as int, to as int),
            all_digits(s),
            value == decimal_value(s.take(k - from)),
        decreases to - k,
    {
        let ghost prefix = s.take(k - from + 1);
        assert(prefix.drop_last() =~= s.take(k - from));
        assert(prefix.last() == cs@[k as int]);
        assert(is_ascii_digit(s[k - from]));
        let d = cs[k] as u64 - '0' as u64;
        assert(d == digit_value(cs@[k as int]));
        match value.checked_mul(10) {
            None => {
                proof {
                    lemma_decimal_value_prefix(s, k - from + 1);
                }
                return None;
            },
            Some(times_ten) => match times_ten.checked_add(d) {
                None => {
                    proof {
                        lemma_decimal_value_prefix(s, k - from + 1);
                    }
                    return None;
                },
                Some(next) => {
                    value = next;
                },
            },
        }
        k = k + 1;
    }
    assert(s.take(to - from) =~= s);
    Some(value)
}

/// Appends the digit character for `d` to `out`.
fn append_digit(out: &mut String, d: u64)
    requires
        d < 16,
    ensures
        final(out)@ == old(out)@ + seq![digit_char(d as nat)],
{
    let digits = "0123456789abcdef";
    proof {
        reveal_strlit("0123456789abcdef");
    }
    let one = digits.substring_char(d as usize, d as usize + 1);
    assert(one@ =~= seq![digit_char(d as nat)]);
    out.append(one);
}

/// Appends `n` written in base `radix` to `out`.
pub fn append_radix(out: &mut String, n: u64, radix: u64)
    requires
        2 <= radix <= 16,
    ensures
        final(out)@ == old(out)@ + radix_digits(n as nat, radix as nat),
    decreases n,
{
    if n < radix {
        append_digit(out, n);
    } else {
        assert(n / radix < n) by (nonlinear_arith)
            requires
                radix >= 2,
                n >= radix,
        ;
        append_radix(out, n / radix, radix);
        append_digit(out, n % radix);
        assert(final(out)@ =~= old(out)@ + radix_digits(n as nat, radix as nat));
    }
}

} // verus!
