//! Character-level scanning of the log text: decimal numbers, splitting on a
//! separator, and locating the last occurrence of a record marker.

use vstd::arithmetic::div_mod::lemma_fundamental_div_mod;
use vstd::prelude::*;

verus! {

/// A decimal digit `'0'..='9'`.
pub open spec fn is_digit(c: char) -> bool {
    48 <= c as u32 && c as u32 <= 57
}

/// Numeric value of a decimal digit.
pub open spec fn digit_val(c: char) -> int {
    c as u32 - 48
}

/// Every character of `s` is a decimal digit.
pub open spec fn all_digits(s: Seq<char>) -> bool {
    forall|i: int| 0 <= i < s.len() ==> is_digit(#[trigger] s[i])
}

/// Value of a digit string read in base ten.
pub open spec fn digits_val(s: Seq<char>) -> int
    decreases s.len(),
{
    if s.len() == 0 {
        0
    } else {
        digits_val(s.drop_last()) * 10 + digit_val(s.last())
    }
}

pub proof fn lemma_digits_val_nonneg(s: Seq<char>)
    requires
        all_digits(s),
    ensures
        digits_val(s) >= 0,
    decreases s.len(),
{
    if s.len() > 0 {
        lemma_digits_val_nonneg(s.drop_last());
    }
}

/// A digit string is worth at least any of its prefixes.
pub proof fn lemma_digits_val_prefix_le(s: Seq<char>, i: int)
    requires
        all_digits(s),
        0 <= i <= s.len(),
    ensures
        digits_val(s.take(i)) <= digits_val(s),
    decreases s.len() - i,
{
    if i == s.len() {
        assert(s.take(i) =~= s);
    } else {
        assert(s.take(i + 1).drop_last() =~= s.take(i));
        assert(all_digits(s.take(i)));
        lemma_digits_val_nonneg(s.take(i));
        assert(digits_val(s.take(i + 1)) == digits_val(s.take(i)) * 10 + digit_val(s[i]));
        lemma_digits_val_prefix_le(s, i + 1);
    }
}

/// The value of an optionally `+`-signed digit string, as `u64::from_str_radix`
/// with base ten reads it: `None` when empty, when any character is not a
/// digit, or when the value exceeds `u64::MAX`.
pub open spec fn parse_u64_spec(s: Seq<char>) -> Option<int> {
    let digits = if s.len() > 0 && s[0] == '+' {
        s.drop_first()
    } else {
        s
    };
    if digits.len() > 0 && all_digits(digits) && digits_val(digits) <= u64::MAX {
        Some(digits_val(digits))
    } else {
        None
    }
}

/// The value of an optionally signed digit string, as `i64::from_str_radix`
/// with base ten reads it.
pub open spec fn parse_i64_spec(s: Seq<char>) -> Option<int> {
    if s.len() > 0 && s[0] == '-' {
        let digits = s.drop_first();
        if digits.len() > 0 && all_digits(digits) && -digits_val(digits) >= i64::MIN {
            Some(-digits_val(digits))
        } else {
            None
        }
    } else {
        let digits = if s.len() > 0 && s[0] == '+' {
            s.drop_first()
        } else {
            s
        };
        if digits.len() > 0 && all_digits(digits) && digits_val(digits) <= i64::MAX {
            Some(digits_val(digits))
        } else {
            None
        }
    }
}

/// Reads `v[from..]` as an unsigned digit string.
fn parse_digits(v: &Vec<char>, from: usize) -> (r: Option<u64>)
    requires
        from <= v@.len(),
    ensures
        match r {
            Some(n) => {
                let s = v@.skip(from as int);
                s.len() > 0 && all_digits(s) && digits_val(s) == n
            },
            None => {
                let s = v@.skip(from as int);
                !(s.len() > 0 && all_digits(s) && digits_val(s) <= u64::MAX)
            },
        },
{
    let ghost s = v@.skip(from as int);
    if from == v.len() {
        return None;
    }
    let mut acc: u64 = 0;
    let mut i: usize = from;
    while i < v.len()
        invariant
            from <= i <= v@.len(),
            from < v@.len(),
            s == v@.skip(from as int),
            all_digits(s.take(i - from)),
            acc == digits_val(s.take(i - from)),
        decreases v@.len() - i,
    {
        let u = v[i] as u32;
        if u < 48 || u > 57 {
            assert(!is_digit(s[i - from]));
            return None;
        }
        let d = (u - 48) as u64;
        proof {
            assert(s.take(i - from + 1).drop_last() =~= s.take(i - from));
            assert(s.take(i - from + 1).last() == s[i - from]);
        }
        let next = match acc.checked_mul(10) {
            Some(m) => m.checked_add(d),
            None => None,
        };
        match next {
            Some(n) => {
                acc = n;
            },
            None => {
                proof {
                    assert(digits_val(s.take(i - from + 1)) > u64::MAX);
                    if all_digits(s) {
                        lemma_digits_val_prefix_le(s, i - from + 1);
                    }
                }
                return None;
            },
        }
        i = i + 1;
    }
    proof {
        assert(s.take(i - from) =~= s);
    }
    Some(acc)
}

/// Reads the whole of `v` as `u64::from_str_radix(.., 10)` would.
pub fn parse_u64_chars(v: &Vec<char>) -> (r: Option<u64>)
    ensures
        match r {
            Some(n) => parse_u64_spec(v@) == Some(n as int),
            None => parse_u64_spec(v@) is None,
        },
{
    if v.len() > 0 && v[0] == '+' {
        proof {
            assert(v@.skip(1) =~= v@.drop_first());
        }
        parse_digits(v, 1)
    } else {
        proof {
            assert(v@.skip(0) =~= v@);
        }
        parse_digits(v, 0)
    }
}

/// Reads the whole of `v` as `i64::from_str_radix(.., 10)` would.
pub fn parse_i64_chars(v: &Vec<char>) -> (r: Option<i64>)
    ensures
        match r {
            Some(n) => parse_i64_spec(v@) == Some(n as int),
            None => parse_i64_spec(v@) is None,
        },
{
    if v.len() > 0 && v[0] == '-' {
        proof {
            assert(v@.skip(1) =~= v@.drop_first());
        }
        match parse_digits(v, 1) {
            Some(mag) => {
                proof {
                    lemma_digits_val_nonneg(v@.drop_first());
                }
                if mag > 9223372036854775808u64 {
                    None
                } else if mag == 9223372036854775808u64 {
                    Some(i64::MIN)
                } else {
                    Some(-(mag as i64))
                }
            },
            None => None,
        }
    } else if v.len() > 0 && v[0] == '+' {
        proof {
            assert(v@.skip(1) =~= v@.drop_first());
        }
        match parse_digits(v, 1) {
            Some(mag) => {
                if mag > i64::MAX as u64 {
                    None
                } else {
                    Some(mag as i64)
                }
            },
            None => None,
        }
    } else {
        proof {
            assert(v@.skip(0) =~= v@);
        }
        match parse_digits(v, 0) {
            Some(mag) => {
                if mag > i64::MAX as u64 {
                    None
                } else {
                    Some(mag as i64)
                }
            },
            None => None,
        }
    }
}

/// The characters of a string slice, one by one.
pub fn chars_of(s: &str) -> (r: Vec<char>)
    ensures
        r@ == s@,
{
    let n = s.unicode_len();
    let mut r: Vec<char> = Vec::new();
    let mut i: usize = 0;
    while i < n
        invariant
            i <= n,
            n == s@.len(),
            r@ == s@.take(i as int),
        decreases n - i,
    {
        r.push(s.get_char(i));
        proof {
            assert(s@.take(i + 1) =~= s@.take(i as int).push(s@[i as int]));
        }
        i = i + 1;
    }
    proof {
        assert(s@.take(n as int) =~= s@);
    }
    r
}

/// What splitting `s` at every occurrence of `c` yields, in order; the
/// separators themselves are dropped and empty pieces are kept, as
/// `str::split` yields them.
pub open spec fn split_char(s: Seq<char>, c: char) -> Seq<Seq<char>>
    decreases s.len(),
{
    if s.len() == 0 {
        seq![Seq::<char>::empty()]
    } else if s[0] == c {
        seq![Seq::<char>::empty()] + split_char(s.drop_first(), c)
    } else {
        let rest = split_char(s.drop_first(), c);
        seq![seq![s[0]] + rest[0]] + rest.drop_first()
    }
}

pub proof fn lemma_split_char_nonempty(s: Seq<char>, c: char)
    ensures
        split_char(s, c).len() >= 1,
    decreases s.len(),
{
    if s.len() > 0 {
        lemma_split_char_nonempty(s.drop_first(), c);
    }
}

/// The pieces of a split, with the first piece extended on the left by `p`.
pub open spec fn glue(p: Seq<char>, pieces: Seq<Seq<char>>) -> Seq<Seq<char>> {
    seq![p + pieces[0]] + pieces.drop_first()
}

/// Splits `v` at every occurrence of `c`.
pub fn split_exec(v: &Vec<char>, c: char) -> (r: Vec<Vec<char>>)
    ensures
        r@.map_values(|piece: Vec<char>| piece@) == split_char(v@, c),
{
    let mut done: Vec<Vec<char>> = Vec::new();
    let mut cur: Vec<char> = Vec::new();
    let mut i: usize = 0;
    proof {
        assert(v@.skip(0) =~= v@);
        lemma_split_char_nonempty(v@, c);
        assert(glue(Seq::<char>::empty(), split_char(v@, c)) =~= split_char(v@, c));
        assert(done@.map_values(|piece: Vec<char>| piece@) =~= Seq::<Seq<char>>::empty());
    }
    while i < v.len()
        invariant
            i <= v@.len(),
            split_char(v@, c) == done@.map_values(|piece: Vec<char>| piece@) + glue(
                cur@,
                split_char(v@.skip(i as int), c),
            ),
        decreases v@.len() - i,
    {
        let ghost tail = v@.skip(i as int);
        proof {
            assert(tail.drop_first() =~= v@.skip(i + 1));
            assert(tail[0] == v@[i as int]);
            lemma_split_char_nonempty(v@.skip(i + 1), c);
        }
        if v[i] == c {
            let ghost old_done = done@;
            let ghost old_cur = cur@;
            done.push(cur);
            cur = Vec::new();
            proof {
                let pieces = split_char(v@.skip(i + 1), c);
                assert(split_char(tail, c) == seq![Seq::<char>::empty()] + pieces);
                assert(glue(old_cur, split_char(tail, c)) =~= seq![old_cur] + glue(
                    Seq::<char>::empty(),
                    pieces,
                ));
                assert(done@.map_values(|piece: Vec<char>| piece@) =~= old_done.map_values(
                    |piece: Vec<char>| piece@,
                ).push(old_cur));
                assert(old_done.map_values(|piece: Vec<char>| piece@).push(old_cur) + glue(
                    Seq::<char>::empty(),
                    pieces,
                ) =~= old_done.map_values(|piece: Vec<char>| piece@) + (seq![old_cur] + glue(
                    Seq::<char>::empty(),
                    pieces,
                )));
            }
        } else {
            let ghost old_cur = cur@;
            cur.push(v[i]);
            proof {
                let pieces = split_char(v@.skip(i + 1), c);
                assert(split_char(tail, c) == seq![seq![tail[0]] + pieces[0]]
                    + pieces.drop_first());
                assert(glue(old_cur, split_char(tail, c))[0] =~= glue(cur@, pieces)[0]);
                assert(glue(old_cur, split_char(tail, c)) =~= glue(cur@, pieces));
            }
        }
        i = i + 1;
    }
    proof {
        assert(v@.skip(i as int) =~= Seq::<char>::empty());
        assert(split_char(Seq::<char>::empty(), c) == seq![Seq::<char>::empty()]);
        assert(glue(cur@, seq![Seq::<char>::empty()]) =~= seq![cur@]);
    }
    let ghost old_done = done@;
    done.push(cur);
    proof {
        assert(done@.map_values(|piece: Vec<char>| piece@) =~= old_done.map_values(
            |piece: Vec<char>| piece@,
        ) + seq![cur@]);
    }
    done
}

/// `m` occurs in `s` starting at position `i`.
pub open spec fn marker_at(s: Seq<char>, m: Seq<char>, i: int) -> bool {
    0 <= i && i + m.len() <= s.len() && s.subrange(i, i + m.len() as int) == m
}

/// The last position below `below` at which `m` occurs in `s`.
pub open spec fn last_marker_from(s: Seq<char>, m: Seq<char>, below: int) -> Option<int>
    decreases below,
{
    if below <= 0 {
        None
    } else if marker_at(s, m, below - 1) {
        Some(below - 1)
    } else {
        last_marker_from(s, m, below - 1)
    }
}

/// The position of the last occurrence of `m` in `s`, if any.
pub open spec fn last_marker(s: Seq<char>, m: Seq<char>) -> Option<int> {
    last_marker_from(s, m, s.len() - m.len() + 1)
}

/// An occurrence at `p` with none later pins `last_marker_from` down.
pub proof fn lemma_last_marker_from_found(s: Seq<char>, m: Seq<char>, p: int, below: int)
    requires
        marker_at(s, m, p),
        p < below,
        forall|j: int| p < j ==> !marker_at(s, m, j),
    ensures
        last_marker_from(s, m, below) == Some(p),
    decreases below,
{
    if below - 1 > p {
        lemma_last_marker_from_found(s, m, p, below - 1);
    }
}

/// Whether `m` occurs in `v` starting at `i`.
fn is_marker_at(v: &Vec<char>, m: &Vec<char>, i: usize) -> (r: bool)
    requires
        i + m@.len() <= v@.len(),
    ensures
        r == marker_at(v@, m@, i as int),
{
    let n = v.len();
    let mut k: usize = 0;
    while k < m.len()
        invariant
            k <= m@.len(),
            i + m@.len() <= v@.len(),
            n == v@.len(),
            forall|j: int| 0 <= j < k ==> v@[i + j] == m@[j],
        decreases m@.len() - k,
    {
        assert(i + k < n);
        if v[i + k] != m[k] {
            proof {
                assert(v@.subrange(i as int, i + m@.len()) != m@) by {
                    assert(v@.subrange(i as int, i + m@.len())[k as int] != m@[k as int]);
                }
            }
            return false;
        }
        k = k + 1;
    }
    proof {
        assert(v@.subrange(i as int, i + m@.len()) =~= m@);
    }
    true
}

/// Finds the last occurrence of `m` in `v`, scanning from the end.
pub fn find_last_marker(v: &Vec<char>, m: &Vec<char>) -> (r: Option<usize>)
    requires
        m@.len() >= 1,
    ensures
        match r {
            Some(i) => last_marker(v@, m@) == Some(i as int) && marker_at(v@, m@, i as int),
            None => last_marker(v@, m@) is None,
        },
{
    if m.len() > v.len() {
        proof {
            assert(forall|j: int| !marker_at(v@, m@, j));
            assert(last_marker_from(v@, m@, v@.len() - m@.len() + 1) is None);
        }
        return None;
    }
    let mut b: usize = v.len() - m.len() + 1;
    proof {
        assert(last_marker(v@, m@) == last_marker_from(v@, m@, b as int));
    }
    while b > 0
        invariant
            b <= v@.len() - m@.len() + 1,
            m@.len() >= 1,
            m@.len() <= v@.len(),
            last_marker(v@, m@) == last_marker_from(v@, m@, b as int),
        decreases b,
    {
        if is_marker_at(v, m, b - 1) {
            return Some(b - 1);
        }
        b = b - 1;
    }
    None
}

/// The first position at or after `from` holding `c`, or the length of `s`
/// when there is none.
pub open spec fn first_at_or_len(s: Seq<char>, from: int, c: char) -> int
    decreases s.len() - from,
{
    if from < 0 || from >= s.len() {
        s.len() as int
    } else if s[from] == c {
        from
    } else {
        first_at_or_len(s, from + 1, c)
    }
}

/// Finds the first occurrence of `c` at or after `from`.
pub fn find_char_from(v: &Vec<char>, from: usize, c: char) -> (r: usize)
    requires
        from <= v@.len(),
    ensures
        r == first_at_or_len(v@, from as int, c),
        from <= r <= v@.len(),
{
    let mut i: usize = from;
    while i < v.len()
        invariant
            from <= i <= v@.len(),
            first_at_or_len(v@, from as int, c) == first_at_or_len(v@, i as int, c),
        decreases v@.len() - i,
    {
        if v[i] == c {
            return i;
        }
        i = i + 1;
    }
    i
}

/// A character `c` at `k` with none between `from` and `k` pins
/// `first_at_or_len` down.
pub proof fn lemma_first_at_finds(s: Seq<char>, from: int, k: int, c: char)
    requires
        0 <= from <= k < s.len(),
        s[k] == c,
        forall|j: int| from <= j < k ==> s[j] != c,
    ensures
        first_at_or_len(s, from, c) == k,
    decreases k - from,
{
    if from < k {
        lemma_first_at_finds(s, from + 1, k, c);
    }
}

/// The character of a decimal digit value.
pub open spec fn digit_char(n: int) -> char {
    ((n + 48) as u8) as char
}

/// The decimal digits of a non-negative number, most significant first.
pub open spec fn dec_digits(n: nat) -> Seq<char>
    decreases n,
{
    if n < 10 {
        seq![digit_char(n as int)]
    } else {
        dec_digits(n / 10) + seq![digit_char((n % 10) as int)]
    }
}

/// The decimal text of a number, as `Display` writes it: a minus sign for a
/// negative number, then its digits.
pub open spec fn dec_repr(v: int) -> Seq<char> {
    if v < 0 {
        seq!['-'] + dec_digits((-v) as nat)
    } else {
        dec_digits(v as nat)
    }
}

/// The decimal digits of `n` are digits and read back as `n`.
pub proof fn lemma_dec_digits_read_back(n: nat)
    ensures
        dec_digits(n).len() >= 1,
        all_digits(dec_digits(n)),
        digits_val(dec_digits(n)) == n,
    decreases n,
{
    if n < 10 {
        let single = seq![digit_char(n as int)];
        assert(dec_digits(n) == single);
        assert(single.drop_last() =~= Seq::<char>::empty());
        assert(single.last() == digit_char(n as int));
        assert(digit_val(digit_char(n as int)) == n);
        assert(digits_val(single) == digits_val(single.drop_last()) * 10 + digit_val(
            single.last(),
        ));
        assert(digits_val(Seq::<char>::empty()) == 0);
    } else {
        lemma_dec_digits_read_back(n / 10);
        let pre = dec_digits(n / 10);
        let whole = pre + seq![digit_char((n % 10) as int)];
        assert(whole.drop_last() =~= pre);
        assert(whole.last() == digit_char((n % 10) as int));
        assert(digit_val(digit_char((n % 10) as int)) == n % 10);
        lemma_fundamental_div_mod(n as int, 10);
        assert(all_digits(whole)) by {
            assert(forall|k: int| 0 <= k < pre.len() ==> whole[k] == pre[k]);
        }
    }
}

/// Every character of a decimal text is a digit or the minus sign.
pub proof fn lemma_dec_repr_chars(v: int)
    ensures
        dec_repr(v).len() >= 1,
        forall|k: int|
            0 <= k < dec_repr(v).len() ==> is_digit(#[trigger] dec_repr(v)[k]) || dec_repr(v)[k]
                == '-',
{
    if v < 0 {
        lemma_dec_digits_read_back((-v) as nat);
        assert(forall|k: int|
            1 <= k < dec_repr(v).len() ==> dec_repr(v)[k] == dec_digits((-v) as nat)[k - 1]);
    } else {
        lemma_dec_digits_read_back(v as nat);
    }
}

/// The decimal text of a number in `i64`'s range parses back to it.
pub proof fn lemma_parse_dec_repr(v: int)
    requires
        i64::MIN <= v <= i64::MAX,
    ensures
        parse_i64_spec(dec_repr(v)) == Option::Some(v),
{
    if v < 0 {
        let s = dec_repr(v);
        lemma_dec_digits_read_back((-v) as nat);
        assert(s[0] == '-');
        assert(s.drop_first() =~= dec_digits((-v) as nat));
    } else {
        let s = dec_repr(v);
        lemma_dec_digits_read_back(v as nat);
        assert(is_digit(s[0]));
        assert(s[0] != '-' && s[0] != '+');
    }
}

/// The text from `from` up to the next line break, or to the end of the text
/// when no line break follows.
pub open spec fn capture_to_newline(s: Seq<char>, from: int) -> Seq<char> {
    s.subrange(from, first_at_or_len(s, from, '\n'))
}

/// Copies `v[from..to]` out.
pub fn copy_range(v: &Vec<char>, from: usize, to: usize) -> (r: Vec<char>)
    requires
        from <= to <= v@.len(),
    ensures
        r@ == v@.subrange(from as int, to as int),
{
    let mut r: Vec<char> = Vec::new();
    let mut i: usize = from;
    while i < to
        invariant
            from <= i <= to <= v@.len(),
            r@ == v@.subrange(from as int, i as int),
        decreases to - i,
    {
        r.push(v[i]);
        proof {
            assert(v@.subrange(from as int, i + 1) =~= v@.subrange(from as int, i as int).push(
                v@[i as int],
            ));
        }
        i = i + 1;
    }
    r
}

} // verus!
