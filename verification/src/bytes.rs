//! Byte-sequence helpers shared by the archive reader and writer: comparing
//! and copying byte ranges, the space-padded numeric header fields of the `ar`
//! format, and the base name of a file path.

use vstd::prelude::*;

verus! {

// ---------------------------------------------------------------------------
// Plain byte-vector helpers
// ---------------------------------------------------------------------------

/// True iff the two byte vectors hold the same bytes.
pub fn bytes_eq(a: &Vec<u8>, b: &Vec<u8>) -> (r: bool)
    ensures
        r == (a@ == b@),
{
    if a.len() != b.len() {
        assert(a@.len() != b@.len());
        return false;
    }
    let n = a.len();
    let mut i: usize = 0;
    while i < n
        invariant
            n == a@.len() && n == b@.len(),
            0 <= i <= n,
            forall|j: int| 0 <= j < i ==> a@[j] == b@[j],
        decreases n - i,
    {
        if a[i] != b[i] {
            return false;
        }
        i += 1;
    }
    proof {
        assert(a@ =~= b@);
    }
    true
}

/// Copies the byte range `[start, end)` of `d` into a fresh vector.
pub fn copy_range(d: &Vec<u8>, start: usize, end: usize) -> (r: Vec<u8>)
    requires
        start <= end <= d@.len(),
    ensures
        r@ == d@.subrange(start as int, end as int),
{
    let mut out: Vec<u8> = Vec::new();
    let mut i: usize = start;
    while i < end
        invariant
            start <= i <= end <= d@.len(),
            out@ == d@.subrange(start as int, i as int),
        decreases end - i,
    {
        out.push(d[i]);
        proof {
            assert(out@ =~= d@.subrange(start as int, i + 1 as int));
        }
        i += 1;
    }
    out
}

/// Appends the byte range `[start, end)` of `d` to `out`.
pub fn push_range(out: &mut Vec<u8>, d: &Vec<u8>, start: usize, end: usize)
    requires
        start <= end <= d@.len(),
    ensures
        final(out)@ == old(out)@ + d@.subrange(start as int, end as int),
{
    let ghost base = out@;
    let mut i: usize = start;
    while i < end
        invariant
            start <= i <= end <= d@.len(),
            out@ == base + d@.subrange(start as int, i as int),
        decreases end - i,
    {
        out.push(d[i]);
        proof {
            assert(out@ =~= base + d@.subrange(start as int, i + 1 as int));
        }
        i += 1;
    }
    proof {
        assert(out@ =~= base + d@.subrange(start as int, end as int));
    }
}

// ---------------------------------------------------------------------------
// Numeric header fields
// ---------------------------------------------------------------------------

/// `base` raised to the power `w`.
pub open spec fn pow_b(base: nat, w: nat) -> nat
    decreases w,
{
    if w == 0 {
        1
    } else {
        base * pow_b(base, (w - 1) as nat)
    }
}

/// `n` spaces.
pub open spec fn spaces(n: nat) -> Seq<u8> {
    Seq::new(n, |i: int| 32u8)
}

/// The digits of `n` in base `base`, most significant first, using at most `w`
/// digits (exact whenever `n < pow_b(base, w)`). Zero has no digits here.
pub open spec fn num_text_w(n: nat, base: nat, w: nat) -> Seq<u8>
    decreases w,
{
    if w == 0 || n == 0 {
        Seq::empty()
    } else {
        num_text_w(n / base, base, (w - 1) as nat).push((48 + n % base) as u8)
    }
}

/// The textual form of `n` in base `base`: its digits, or `"0"` for zero.
pub open spec fn num_text(n: nat, base: nat, w: nat) -> Seq<u8> {
    if n == 0 {
        seq![48u8]
    } else {
        num_text_w(n, base, w)
    }
}

/// A numeric header field of the `ar` format: the number in base `base`,
/// left-justified in a field of `w` bytes, padded with spaces.
pub open spec fn padded_field(n: nat, base: nat, w: nat) -> Seq<u8> {
    num_text(n, base, w) + spaces((w - num_text(n, base, w).len()) as nat)
}

/// True iff `b` is an ASCII digit of the given base.
pub open spec fn is_digit(b: u8, base: nat) -> bool {
    48 <= b && b < 48 + base
}

/// True iff every byte of `s` is a digit of the given base.
pub open spec fn all_digits(s: Seq<u8>, base: nat) -> bool {
    forall|i: int| 0 <= i < s.len() ==> is_digit(#[trigger] s[i], base)
}

/// The value of a digit string, most significant digit first.
pub open spec fn digits_val(s: Seq<u8>, base: nat) -> nat
    decreases s.len(),
{
    if s.len() == 0 {
        0
    } else {
        (digits_val(s.drop_last(), base) * base + (s.last() - 48)) as nat
    }
}

/// `s` with every trailing space removed.
pub open spec fn trim_trailing_spaces(s: Seq<u8>) -> Seq<u8>
    decreases s.len(),
{
    if s.len() > 0 && s.last() == 32 {
        trim_trailing_spaces(s.drop_last())
    } else {
        s
    }
}

/// The number a header field holds: trailing spaces are ignored; what is left
/// must be one or more digits.
pub open spec fn parse_num(s: Seq<u8>, base: nat) -> Option<nat> {
    let t = trim_trailing_spaces(s);
    if t.len() > 0 && all_digits(t, base) {
        Some(digits_val(t, base))
    } else {
        None
    }
}

/// The digits of `n` are digits, their value is back to `n`, and there are at
/// most `w` of them.
pub proof fn lemma_num_text_w(n: nat, base: nat, w: nat)
    requires
        2 <= base <= 10,
        n < pow_b(base, w),
    ensures
        all_digits(num_text_w(n, base, w), base),
        digits_val(num_text_w(n, base, w), base) == n,
        num_text_w(n, base, w).len() <= w,
        n > 0 ==> num_text_w(n, base, w).len() >= 1,
    decreases w,
{
    if w == 0 || n == 0 {
    } else {
        let q = n / base;
        let r = n % base;
        assert(pow_b(base, w) == base * pow_b(base, (w - 1) as nat));
        assert(n == q * base + r && r < base && q < pow_b(base, (w - 1) as nat))
            by (nonlinear_arith)
            requires
                n < pow_b(base, w),
                base >= 2,
                n > 0,
                pow_b(base, w) == base * pow_b(base, (w - 1) as nat),
                q == n / base,
                r == n % base,
        ;
        lemma_num_text_w(q, base, (w - 1) as nat);
        let s = num_text_w(q, base, (w - 1) as nat);
        let full = num_text_w(n, base, w);
        assert(full == s.push((48 + r) as u8));
        assert(full.drop_last() =~= s);
        assert(full.last() == (48 + r) as u8);
        assert(digits_val(full, base) == digits_val(s, base) * base + r);
        assert forall|i: int| 0 <= i < full.len() implies is_digit(
            #[trigger] full[i],
            base,
        ) by {
            if i < s.len() {
                assert(full[i] == s[i]);
            } else {
                assert(full[i] == (48 + r) as u8);
            }
        }
    }
}

/// `pow_b` grows with the exponent.
pub proof fn lemma_pow_b_monotonic(base: nat, a: nat, b: nat)
    requires
        1 <= base,
        a <= b,
    ensures
        pow_b(base, a) <= pow_b(base, b),
    decreases b,
{
    if a < b {
        lemma_pow_b_monotonic(base, a, (b - 1) as nat);
        assert(pow_b(base, b) == base * pow_b(base, (b - 1) as nat));
        assert(base * pow_b(base, (b - 1) as nat) >= 1 * pow_b(base, (b - 1) as nat))
            by (nonlinear_arith)
            requires
                base >= 1,
                pow_b(base, (b - 1) as nat) >= 0,
        ;
    }
}

/// Ten to the sixteenth, written out for bounds on sixteen-digit fields.
pub proof fn lemma_pow10_16()
    ensures
        pow_b(10, 16) == 10000000000000000,
{
    assert(pow_b(10, 0) == 1);
    assert(pow_b(10, 1) == 10);
    assert(pow_b(10, 2) == 100);
    assert(pow_b(10, 3) == 1000);
    assert(pow_b(10, 4) == 10000);
    assert(pow_b(10, 5) == 100000);
    assert(pow_b(10, 6) == 1000000);
    assert(pow_b(10, 7) == 10000000);
    assert(pow_b(10, 8) == 100000000);
    assert(pow_b(10, 9) == 1000000000);
    assert(pow_b(10, 10) == 10000000000);
    assert(pow_b(10, 11) == 100000000000);
    assert(pow_b(10, 12) == 1000000000000);
    assert(pow_b(10, 13) == 10000000000000);
    assert(pow_b(10, 14) == 100000000000000);
    assert(pow_b(10, 15) == 1000000000000000);
    assert(pow_b(10, 16) == 10000000000000000);
}

/// Trailing spaces appended to a field do not change what it parses to.
pub proof fn lemma_trim_spaces_append(s: Seq<u8>, k: nat)
    ensures
        trim_trailing_spaces(s + spaces(k)) == trim_trailing_spaces(s),
    decreases k,
{
    if k == 0 {
        assert(s + spaces(0) =~= s);
    } else {
        let whole = s + spaces(k);
        assert(whole.last() == 32);
        assert(whole.drop_last() =~= s + spaces((k - 1) as nat));
        lemma_trim_spaces_append(s, (k - 1) as nat);
    }
}

/// A non-empty digit string has no trailing space to trim.
pub proof fn lemma_trim_digits(s: Seq<u8>, base: nat)
    requires
        base <= 10,
        s.len() > 0,
        all_digits(s, base),
    ensures
        trim_trailing_spaces(s) == s,
{
    assert(is_digit(s.last(), base));
}

/// Round trip of a numeric field: formatting `n` into a field of width `w`
/// and parsing the field back yields `n`.
pub proof fn lemma_parse_padded_field(n: nat, base: nat, w: nat)
    requires
        2 <= base <= 10,
        1 <= w,
        n < pow_b(base, w),
    ensures
        parse_num(padded_field(n, base, w), base) == Some(n),
        padded_field(n, base, w).len() == w,
        num_text(n, base, w).len() <= w,
{
    lemma_num_text_w(n, base, w);
    let t = num_text(n, base, w);
    assert(t.len() >= 1 && t.len() <= w && all_digits(t, base) && digits_val(t, base)
        == n) by {
        if n == 0 {
            assert(t =~= seq![48u8]);
            assert(t.len() == 1);
            assert(t.drop_last() =~= Seq::<u8>::empty());
            assert(digits_val(Seq::<u8>::empty(), base) == 0);
            assert(t.last() == 48u8);
            assert(digits_val(t, base) == (digits_val(t.drop_last(), base) * base + (
            t.last() - 48)) as nat);
            assert(digits_val(t, base) == 0);
            assert(is_digit(48u8, base));
        }
    }
    lemma_trim_spaces_append(t, (w - t.len()) as nat);
    lemma_trim_digits(t, base);
}

/// Appends the digits of `n` (at most `w` of them) to `out`.
fn push_num_w(out: &mut Vec<u8>, n: u64, base: u64, w: u64)
    requires
        2 <= base <= 10,
    ensures
        final(out)@ == old(out)@ + num_text_w(n as nat, base as nat, w as nat),
    decreases w,
{
    if w == 0 || n == 0 {
        proof {
            assert(old(out)@ + num_text_w(n as nat, base as nat, w as nat) =~= old(
            out)@);
        }
    } else {
        push_num_w(out, n / base, base, w - 1);
        let d: u64 = n % base;
        out.push((48 + d) as u8);
        proof {
            assert(out@ =~= old(out)@ + num_text_w(n as nat, base as nat, w as nat));
        }
    }
}

/// Appends a space-padded numeric field of width `w` for `n` to `out`.
pub fn push_field(out: &mut Vec<u8>, n: u64, base: u64, w: u64)
    requires
        2 <= base <= 10,
        1 <= w <= 16,
        (n as nat) < pow_b(base as nat, w as nat),
    ensures
        final(out)@ == old(out)@ + padded_field(n as nat, base as nat, w as nat),
        final(out)@.len() == old(out)@.len() + w,
{
    proof {
        lemma_parse_padded_field(n as nat, base as nat, w as nat);
    }
    let ghost base_seq = out@;
    let ghost t = num_text(n as nat, base as nat, w as nat);
    let start_len: usize = out.len();
    if n == 0 {
        out.push(48u8);
        proof {
            assert(out@ =~= base_seq + t);
        }
    } else {
        push_num_w(out, n, base, w);
    }
    let mut i: usize = out.len() - start_len;
    proof {
        assert(out@ == base_seq + t);
        assert(i == t.len());
        assert(out@ =~= base_seq + t + spaces((i - t.len()) as nat));
    }
    while i < w as usize
        invariant
            t.len() <= i <= w <= 16,
            out@ == base_seq + t + spaces((i - t.len()) as nat),
        decreases w - i,
    {
        out.push(32u8);
        proof {
            assert(out@ =~= base_seq + t + spaces((i + 1 - t.len()) as nat));
        }
        i += 1;
    }
    proof {
        assert(out@ =~= base_seq + padded_field(n as nat, base as nat, w as nat));
    }
}

/// Parses the decimal field `d[start..end]`, ignoring trailing spaces.
pub fn parse_num_range(d: &Vec<u8>, start: usize, end: usize) -> (r: Option<u64>)
    requires
        start <= end <= d@.len(),
        end - start <= 16,
    ensures
        match r {
            Some(v) => parse_num(d@.subrange(start as int, end as int), 10) == Some(
            v as nat),
            None => parse_num(d@.subrange(start as int, end as int), 10) is None,
        },
{
    let ghost field = d@.subrange(start as int, end as int);
    // skip trailing spaces
    let mut j: usize = end;
    while j > start && d[j - 1] == 32
        invariant
            start <= j <= end <= d@.len(),
            trim_trailing_spaces(field) == trim_trailing_spaces(
                d@.subrange(start as int, j as int),
            ),
        decreases j,
    {
        proof {
            let cur = d@.subrange(start as int, j as int);
            assert(cur.last() == 32);
            assert(cur.drop_last() =~= d@.subrange(start as int, j - 1 as int));
        }
        j -= 1;
    }
    let ghost t = d@.subrange(start as int, j as int);
    proof {
        if j > start {
            assert(t.last() == d@[j - 1]);
            assert(t.last() != 32);
        }
        assert(trim_trailing_spaces(t) == t);
        assert(trim_trailing_spaces(field) == t);
    }
    if j == start {
        proof {
            assert(t.len() == 0);
        }
        return None;
    }
    // accumulate the digits
    let mut v: u64 = 0;
    let mut i: usize = start;
    while i < j
        invariant
            start <= i <= j <= end <= d@.len(),
            end - start <= 16,
            field == d@.subrange(start as int, end as int),
            t == d@.subrange(start as int, j as int),
            t == trim_trailing_spaces(field),
            j > start,
            all_digits(d@.subrange(start as int, i as int), 10),
            v as nat == digits_val(d@.subrange(start as int, i as int), 10),
            (v as nat) < pow_b(10, (i - start) as nat),
        decreases j - i,
    {
        let b = d[i];
        if b < 48 || b > 57 {
            proof {
                assert(t[i - start] == b);
                assert(!is_digit(b, 10));
                assert(!all_digits(t, 10));
            }
            return None;
        }
        proof {
            let pre = d@.subrange(start as int, i as int);
            let cur = d@.subrange(start as int, i + 1 as int);
            assert(cur.drop_last() =~= pre);
            assert(cur.last() == b);
            assert(pow_b(10, (i + 1 - start) as nat) == 10 * pow_b(
                10,
                (i - start) as nat,
            ));
            assert((v as nat) * 10 + (b - 48) < pow_b(10, (i + 1 - start) as nat))
                by (nonlinear_arith)
                requires
                    (v as nat) < pow_b(10, (i - start) as nat),
                    48 <= b <= 57,
                    pow_b(10, (i + 1 - start) as nat) == 10 * pow_b(
                        10,
                        (i - start) as nat,
                    ),
            ;
            lemma_pow_b_monotonic(10, (i + 1 - start) as nat, 16);
            lemma_pow10_16();
            assert(forall|k: int| 0 <= k < cur.len() ==> is_digit(#[trigger] cur[k], 10));
        }
        v = v * 10 + ((b - 48) as u64);
        i += 1;
    }
    proof {
        assert(d@.subrange(start as int, i as int) == t);
        assert(all_digits(t, 10) && t.len() > 0);
        assert(parse_num(field, 10) == Some(digits_val(t, 10)));
    }
    Some(v)
}

/// Finds where the trailing spaces of `d[from..to]` begin.
pub fn trim_spaces_end(d: &Vec<u8>, from: usize, to: usize) -> (r: usize)
    requires
        from <= to <= d@.len(),
    ensures
        from <= r <= to,
        trim_trailing_spaces(d@.subrange(from as int, to as int)) == d@.subrange(
            from as int,
            r as int,
        ),
{
    let mut j: usize = to;
    while j > from && d[j - 1] == 32
        invariant
            from <= j <= to <= d@.len(),
            trim_trailing_spaces(d@.subrange(from as int, to as int))
                == trim_trailing_spaces(d@.subrange(from as int, j as int)),
        decreases j,
    {
        proof {
            let cur = d@.subrange(from as int, j as int);
            assert(cur.last() == 32);
            assert(cur.drop_last() =~= d@.subrange(from as int, j - 1 as int));
        }
        j -= 1;
    }
    proof {
        let t = d@.subrange(from as int, j as int);
        if j > from {
            assert(t.last() == d@[j - 1]);
        }
        assert(trim_trailing_spaces(t) == t);
    }
    j
}

// ---------------------------------------------------------------------------
// Base names of file paths
// ---------------------------------------------------------------------------

/// The bytes of `p` after its last `/` (all of `p` if it has none).
pub open spec fn base_name(p: Seq<u8>) -> Seq<u8>
    decreases p.len(),
{
    if p.len() == 0 {
        p
    } else if p.last() == 47 {
        Seq::empty()
    } else {
        base_name(p.drop_last()).push(p.last())
    }
}

proof fn lemma_base_name_cut(p: Seq<u8>, cut: int)
    requires
        0 <= cut <= p.len(),
        forall|j: int| cut <= j < p.len() ==> p[j] != 47,
        cut == 0 || p[cut - 1] == 47,
    ensures
        base_name(p) == p.subrange(cut, p.len() as int),
    decreases p.len(),
{
    if cut == p.len() {
        if p.len() == 0 {
            assert(base_name(p) =~= p.subrange(cut, p.len() as int));
        } else {
            assert(p.last() == 47);
            assert(base_name(p) =~= p.subrange(cut, p.len() as int));
        }
    } else {
        assert(p.last() != 47);
        let hd = p.drop_last();
        lemma_base_name_cut(hd, cut);
        assert(hd.subrange(cut, hd.len() as int) =~= p.subrange(cut, p.len() - 1));
        assert(base_name(p) =~= p.subrange(cut, p.len() as int));
    }
}

/// The base name of a path: the bytes after the last `/`.
pub fn base_name_of(p: &Vec<u8>) -> (r: Vec<u8>)
    ensures
        r@ == base_name(p@),
{
    let mut cut: usize = p.len();
    while cut > 0 && p[cut - 1] != 47
        invariant
            0 <= cut <= p@.len(),
            forall|j: int| cut <= j < p@.len() ==> p@[j] != 47,
        decreases cut,
    {
        cut -= 1;
    }
    proof {
        lemma_base_name_cut(p@, cut as int);
    }
    copy_range(p, cut, p.len())
}

} // verus!
