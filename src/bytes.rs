use vstd::prelude::*;

verus! {

/// Whitespace as trimming sees it: space, tab, line feed, vertical tab, form feed,
/// carriage return.
pub open spec fn is_space(b: u8) -> bool {
    b == 32 || (9 <= b && b <= 13)
}

/// The index just past the line that starts at `pos`: past its line feed, or the
/// end of `s` where no line feed follows.
pub open spec fn line_end(s: Seq<u8>, pos: int) -> int
    decreases s.len() - pos,
{
    if pos >= s.len() {
        s.len() as int
    } else if s[pos] == 10 {
        pos + 1
    } else {
        line_end(s, pos + 1)
    }
}

/// The first index at or after `from` that holds `b`, or the length of `s`.
pub open spec fn index_from(s: Seq<u8>, b: u8, from: int) -> int
    decreases s.len() - from,
{
    if from >= s.len() {
        s.len() as int
    } else if s[from] == b {
        from
    } else {
        index_from(s, b, from + 1)
    }
}

/// The fields of `s` from `from` on, separated by each occurrence of `sep`.
pub open spec fn split_from(s: Seq<u8>, sep: u8, from: int) -> Seq<Seq<u8>>
    decreases s.len() - from,
{
    let i = index_from(s, sep, from);
    if from > s.len() || i >= s.len() || i < from {
        seq![s.subrange(from, s.len() as int)]
    } else {
        seq![s.subrange(from, i)] + split_from(s, sep, i + 1)
    }
}

/// The fields of `s` separated by each occurrence of `sep`.
pub open spec fn split_on(s: Seq<u8>, sep: u8) -> Seq<Seq<u8>> {
    split_from(s, sep, 0)
}

/// The index of the first byte at or after `i` that is not whitespace.
pub open spec fn skip_space(s: Seq<u8>, i: int) -> int
    decreases s.len() - i,
{
    if 0 <= i < s.len() && is_space(s[i]) {
        skip_space(s, i + 1)
    } else {
        i
    }
}

/// The index just past the last byte before `j`, and at or after `lo`, that is
/// not whitespace (`lo` where there is none).
pub open spec fn skip_space_back(s: Seq<u8>, j: int, lo: int) -> int
    decreases j - lo,
{
    if lo < j && j <= s.len() && is_space(s[j - 1]) {
        skip_space_back(s, j - 1, lo)
    } else {
        j
    }
}

/// `s` without leading and trailing whitespace.
pub open spec fn trimmed(s: Seq<u8>) -> Seq<u8> {
    let a = skip_space(s, 0);
    s.subrange(a, skip_space_back(s, s.len() as int, a))
}

pub open spec fn is_digit(b: u8) -> bool {
    48 <= b && b <= 57
}

pub open spec fn all_digits(s: Seq<u8>) -> bool {
    forall|i: int| 0 <= i < s.len() ==> is_digit(#[trigger] s[i])
}

/// The number that the decimal digits `s` write.
pub open spec fn decimal_value(s: Seq<u8>) -> nat
    decreases s.len(),
{
    if s.len() == 0 {
        0
    } else {
        decimal_value(s.drop_last()) * 10 + (s.last() - 48) as nat
    }
}

/// The number that `s` writes in decimal, where it is a non-empty run of digits
/// whose value fits in 64 bits.
pub open spec fn decimal_of(s: Seq<u8>) -> Option<u64> {
    if s.len() > 0 && all_digits(s) && decimal_value(s) <= u64::MAX {
        Some(decimal_value(s) as u64)
    } else {
        None
    }
}

/// The shortest decimal digits of `n`.
pub open spec fn decimal_digits(n: nat) -> Seq<u8>
    decreases n,
{
    if n < 10 {
        seq![(48 + n) as u8]
    } else {
        decimal_digits(n / 10).push((48 + n % 10) as u8)
    }
}

/// ASCII letters folded to lower case.
pub open spec fn lower(b: u8) -> u8 {
    if 65 <= b && b <= 90 {
        (b + 32) as u8
    } else {
        b
    }
}

/// `a` and `b` are equal up to the case of ASCII letters.
pub open spec fn eq_ignore_case(a: Seq<u8>, b: Seq<u8>) -> bool {
    a.len() == b.len() && forall|i: int| 0 <= i < a.len() ==> lower(#[trigger] a[i]) == lower(b[i])
}

pub proof fn lemma_line_end_bounds(s: Seq<u8>, pos: int)
    requires
        0 <= pos <= s.len(),
    ensures
        pos <= line_end(s, pos) <= s.len(),
        pos < s.len() ==> pos < line_end(s, pos),
        forall|k: int| pos <= k < line_end(s, pos) - 1 ==> s[k] != 10,
        line_end(s, pos) > pos ==> (s[line_end(s, pos) - 1] == 10 || line_end(s, pos) == s.len()),
    decreases s.len() - pos,
{
    if pos < s.len() && s[pos] != 10 {
        lemma_line_end_bounds(s, pos + 1);
    }
}

pub proof fn lemma_index_from_bounds(s: Seq<u8>, b: u8, from: int)
    requires
        0 <= from <= s.len(),
    ensures
        from <= index_from(s, b, from) <= s.len(),
        index_from(s, b, from) < s.len() ==> s[index_from(s, b, from)] == b,
        forall|k: int| from <= k < index_from(s, b, from) ==> s[k] != b,
    decreases s.len() - from,
{
    if from < s.len() && s[from] != b {
        lemma_index_from_bounds(s, b, from + 1);
    }
}

/// A line that starts at `pos` ends just past the first line feed at `k` or after.
pub proof fn lemma_line_end_at(s: Seq<u8>, pos: int, k: int)
    requires
        0 <= pos <= k < s.len(),
        s[k] == 10,
        forall|j: int| pos <= j < k ==> s[j] != 10,
    ensures
        line_end(s, pos) == k + 1,
    decreases k - pos,
{
    if pos < k {
        lemma_line_end_at(s, pos + 1, k);
    }
}

/// The first `b` at or after `from` is at `k`.
pub proof fn lemma_index_from_at(s: Seq<u8>, b: u8, from: int, k: int)
    requires
        0 <= from <= k <= s.len(),
        k < s.len() ==> s[k] == b,
        forall|j: int| from <= j < k ==> s[j] != b,
    ensures
        index_from(s, b, from) == k,
    decreases k - from,
{
    if from < k {
        lemma_index_from_at(s, b, from + 1, k);
    }
}

/// Digits followed by a line terminator trim to the digits.
pub proof fn lemma_trim_digits_line(d: Seq<u8>)
    requires
        d.len() > 0,
        all_digits(d),
    ensures
        trimmed(d + seq![13u8, 10]) == d,
{
    let x = d + seq![13u8, 10];
    let n = x.len() as int;
    assert(x[0] == d[0]);
    assert(skip_space(x, 0) == 0);
    assert(x[n - 1] == 10 && x[n - 2] == 13 && x[n - 3] == d[d.len() - 1]);
    assert(skip_space_back(x, n, 0) == skip_space_back(x, n - 1, 0));
    assert(skip_space_back(x, n - 1, 0) == skip_space_back(x, n - 2, 0));
    assert(skip_space_back(x, n - 2, 0) == n - 2);
    assert(x.subrange(0, n - 2) =~= d);
}

/// The index just past the line that starts at `pos`.
pub fn find_line_end(s: &[u8], pos: usize) -> (r: usize)
    requires
        pos <= s@.len(),
    ensures
        r == line_end(s@, pos as int),
{
    let mut i = pos;
    while i < s.len() && s[i] != 10
        invariant
            pos <= i <= s@.len(),
            line_end(s@, pos as int) == line_end(s@, i as int),
        decreases s@.len() - i,
    {
        i = i + 1;
    }
    if i < s.len() {
        i + 1
    } else {
        i
    }
}

/// The first index at or after `from` that holds `b`, or the length of `s`.
pub fn find_byte(s: &[u8], b: u8, from: usize) -> (r: usize)
    requires
        from <= s@.len(),
    ensures
        r == index_from(s@, b, from as int),
{
    let mut i = from;
    while i < s.len() && s[i] != b
        invariant
            from <= i <= s@.len(),
            index_from(s@, b, from as int) == index_from(s@, b, i as int),
        decreases s@.len() - i,
    {
        i = i + 1;
    }
    i
}

/// A copy of `s[lo..hi]`.
pub fn copy_range(s: &[u8], lo: usize, hi: usize) -> (r: Vec<u8>)
    requires
        lo <= hi <= s@.len(),
    ensures
        r@ == s@.subrange(lo as int, hi as int),
{
    vstd::slice::slice_to_vec(vstd::slice::slice_subrange(s, lo, hi))
}

/// `v` followed by `s`.
pub fn append(v: &mut Vec<u8>, s: &[u8])
    ensures
        final(v)@ == old(v)@ + s@,
{
    let ghost start = v@;
    let mut i: usize = 0;
    while i < s.len()
        invariant
            i <= s@.len(),
            v@ == start + s@.subrange(0, i as int),
        decreases s@.len() - i,
    {
        v.push(s[i]);
        i = i + 1;
        assert(v@ =~= start + s@.subrange(0, i as int));
    }
    assert(s@.subrange(0, s@.len() as int) =~= s@);
}

/// The fields of `s` separated by each occurrence of `sep`.
pub fn split_bytes(s: &[u8], sep: u8) -> (r: Vec<Vec<u8>>)
    ensures
        r@.map_values(|f: Vec<u8>| f@) == split_on(s@, sep),
{
    let mut r: Vec<Vec<u8>> = Vec::new();
    let mut pos: usize = 0;
    loop
        invariant
            pos <= s@.len(),
            split_on(s@, sep) == r@.map_values(|f: Vec<u8>| f@) + split_from(s@, sep, pos as int),
        decreases s@.len() - pos,
    {
        let i = find_byte(s, sep, pos);
        proof {
            lemma_index_from_bounds(s@, sep, pos as int);
        }
        let f = copy_range(s, pos, i);
        let ghost before = r@.map_values(|f: Vec<u8>| f@);
        r.push(f);
        assert(r@.map_values(|f: Vec<u8>| f@) =~= before.push(f@));
        if i >= s.len() {
            assert(split_from(s@, sep, pos as int) == seq![f@]);
            assert(before + seq![f@] =~= before.push(f@));
            return r;
        }
        assert(split_from(s@, sep, pos as int) == seq![f@] + split_from(s@, sep, i + 1));
        assert(before + (seq![f@] + split_from(s@, sep, i + 1)) =~= before.push(f@) + split_from(
            s@,
            sep,
            i + 1,
        ));
        pos = i + 1;
    }
}

/// `s` without leading and trailing whitespace.
pub fn trim_bytes(s: &[u8]) -> (r: Vec<u8>)
    ensures
        r@ == trimmed(s@),
{
    let mut a: usize = 0;
    while a < s.len() && (s[a] == 32 || (9 <= s[a] && s[a] <= 13))
        invariant
            a <= s@.len(),
            skip_space(s@, 0) == skip_space(s@, a as int),
        decreases s@.len() - a,
    {
        a = a + 1;
    }
    let mut b: usize = s.len();
    while b > a && (s[b - 1] == 32 || (9 <= s[b - 1] && s[b - 1] <= 13))
        invariant
            a <= b <= s@.len(),
            skip_space_back(s@, s@.len() as int, a as int) == skip_space_back(
                s@,
                b as int,
                a as int,
            ),
        decreases b - a,
    {
        b = b - 1;
    }
    copy_range(s, a, b)
}

/// `a` and `b` are equal up to the case of ASCII letters.
pub fn bytes_eq_ignore_case(a: &[u8], b: &[u8]) -> (r: bool)
    ensures
        r == eq_ignore_case(a@, b@),
{
    if a.len() != b.len() {
        return false;
    }
    let mut i: usize = 0;
    while i < a.len()
        invariant
            a@.len() == b@.len(),
            i <= a@.len(),
            forall|k: int| 0 <= k < i ==> lower(#[trigger] a@[k]) == lower(b@[k]),
        decreases a@.len() - i,
    {
        let x = if 65 <= a[i] && a[i] <= 90 {
            a[i] + 32
        } else {
            a[i]
        };
        let y = if 65 <= b[i] && b[i] <= 90 {
            b[i] + 32
        } else {
            b[i]
        };
        if x != y {
            assert(lower(a@[i as int]) != lower(b@[i as int]));
            return false;
        }
        i = i + 1;
    }
    true
}

proof fn lemma_decimal_value_monotone(s: Seq<u8>, i: int)
    requires
        0 <= i <= s.len(),
        all_digits(s),
    ensures
        decimal_value(s.subrange(0, i)) <= decimal_value(s),
    decreases s.len() - i,
{
    if i < s.len() {
        lemma_decimal_value_monotone(s, i + 1);
        assert(s.subrange(0, i + 1).drop_last() =~= s.subrange(0, i));
    } else {
        assert(s.subrange(0, i) =~= s);
    }
}

/// The number `s` writes in decimal; `None` where `s` is empty, holds a byte that
/// is not a digit, or writes a number above the 64-bit range.
pub fn parse_decimal(s: &[u8]) -> (r: Option<u64>)
    ensures
        r == decimal_of(s@),
{
    if s.len() == 0 {
        return None;
    }
    let mut i: usize = 0;
    while i < s.len()
        invariant
            i <= s@.len(),
            forall|k: int| 0 <= k < i ==> is_digit(#[trigger] s@[k]),
        decreases s@.len() - i,
    {
        if s[i] < 48 || s[i] > 57 {
            return None;
        }
        i = i + 1;
    }
    let mut v: u64 = 0;
    let mut j: usize = 0;
    while j < s.len()
        invariant
            j <= s@.len(),
            all_digits(s@),
            v as nat == decimal_value(s@.subrange(0, j as int)),
        decreases s@.len() - j,
    {
        let d = (s[j] - 48) as u64;
        assert(s@.subrange(0, j + 1).drop_last() =~= s@.subrange(0, j as int));
        if v > (u64::MAX - d) / 10 {
            proof {
                assert(decimal_value(s@.subrange(0, j + 1)) > u64::MAX) by (nonlinear_arith)
                    requires
                        decimal_value(s@.subrange(0, j + 1)) == v * 10 + d,
                        v > (u64::MAX - d) / 10,
                        d <= 9,
                ;
                lemma_decimal_value_monotone(s@, j + 1);
            }
            return None;
        }
        assert(v * 10 + d <= u64::MAX) by (nonlinear_arith)
            requires
                v <= (u64::MAX - d) / 10,
                d <= 9,
        ;
        v = v * 10 + d;
        j = j + 1;
    }
    assert(s@.subrange(0, s@.len() as int) =~= s@);
    Some(v)
}

/// The shortest decimal digits of `n`.
pub fn format_decimal(n: u64) -> (r: Vec<u8>)
    ensures
        r@ == decimal_digits(n as nat),
    decreases n,
{
    if n < 10 {
        vec![(48 + n) as u8]
    } else {
        let mut v = format_decimal(n / 10);
        v.push((48 + n % 10) as u8);
        v
    }
}

/// The digits of `n` parse back to `n`.
pub proof fn lemma_decimal_digits(n: nat)
    ensures
        decimal_digits(n).len() > 0,
        all_digits(decimal_digits(n)),
        decimal_value(decimal_digits(n)) == n,
    decreases n,
{
    if n >= 10 {
        lemma_decimal_digits(n / 10);
        let d = decimal_digits(n / 10);
        assert(decimal_digits(n).drop_last() =~= d);
        assert(decimal_digits(n).last() == (48 + n % 10) as u8);
        assert(n == (n / 10) * 10 + n % 10) by (nonlinear_arith);
        assert(decimal_value(decimal_digits(n)) == decimal_value(d) * 10 + (n % 10));
    } else {
        assert(decimal_digits(n).last() == (48 + n) as u8);
        assert(decimal_value(Seq::<u8>::empty()) == 0);
        assert(decimal_digits(n).drop_last() =~= Seq::<u8>::empty());
    }
}

/// Decimal digits of a 64-bit number read back as that number.
pub proof fn lemma_decimal_round_trip(n: u64)
    ensures
        decimal_of(decimal_digits(n as nat)) == Some(n),
{
    lemma_decimal_digits(n as nat);
}

} // verus!
