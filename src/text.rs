use vstd::prelude::*;
use vstd::string::StringSliceAdditionalSpecFns;

verus! {

/// Lexicographic order on byte sequences (a proper prefix sorts first).
pub open spec fn bytes_lt(a: Seq<u8>, b: Seq<u8>) -> bool
    decreases a.len(),
{
    if b.len() == 0 {
        false
    } else if a.len() == 0 {
        true
    } else if a[0] != b[0] {
        a[0] < b[0]
    } else {
        bytes_lt(a.drop_first(), b.drop_first())
    }
}

/// Strings are ordered by their UTF-8 encodings, which is code point order.
pub open spec fn text_lt(a: Seq<char>, b: Seq<char>) -> bool {
    bytes_lt(vstd::utf8::encode_utf8(a), vstd::utf8::encode_utf8(b))
}

proof fn lemma_bytes_lt_index(a: Seq<u8>, b: Seq<u8>, i: int)
    requires
        0 <= i <= a.len(),
        i <= b.len(),
        a.subrange(0, i) == b.subrange(0, i),
    ensures
        bytes_lt(a, b) == bytes_lt(a.subrange(i, a.len() as int), b.subrange(i, b.len() as int)),
    decreases i,
{
    if i > 0 {
        assert(a[0] == a.subrange(0, i)[0]);
        assert(b[0] == b.subrange(0, i)[0]);
        assert(a.drop_first().subrange(0, i - 1) =~= a.subrange(0, i).drop_first());
        assert(b.drop_first().subrange(0, i - 1) =~= b.subrange(0, i).drop_first());
        lemma_bytes_lt_index(a.drop_first(), b.drop_first(), i - 1);
        assert(a.drop_first().subrange(i - 1, a.len() - 1) =~= a.subrange(i, a.len() as int));
        assert(b.drop_first().subrange(i - 1, b.len() - 1) =~= b.subrange(i, b.len() as int));
    } else {
        assert(a.subrange(0, a.len() as int) =~= a);
        assert(b.subrange(0, b.len() as int) =~= b);
    }
}

/// Whether `a` sorts strictly before `b`.
pub fn str_lt(a: &str, b: &str) -> (r: bool)
    ensures
        r == text_lt(a@, b@),
{
    let x = a.as_bytes();
    let y = b.as_bytes();
    let mut i: usize = 0;
    while i < x.len() && i < y.len()
        invariant
            x@ == a.spec_bytes(),
            y@ == b.spec_bytes(),
            i <= x@.len(),
            i <= y@.len(),
            x@.subrange(0, i as int) == y@.subrange(0, i as int),
        decreases x@.len() - i,
    {
        if x[i] != y[i] {
            proof {
                lemma_bytes_lt_index(x@, y@, i as int);
            }
            return x[i] < y[i];
        }
        assert(x@.subrange(0, i + 1) =~= x@.subrange(0, i as int).push(x@[i as int]));
        assert(y@.subrange(0, i + 1) =~= y@.subrange(0, i as int).push(y@[i as int]));
        i = i + 1;
    }
    proof {
        lemma_bytes_lt_index(x@, y@, i as int);
    }
    i < y.len()
}


/// One ASCII decimal digit.
pub open spec fn is_digit(b: u8) -> bool {
    48 <= b <= 57
}

pub open spec fn all_digits(s: Seq<u8>) -> bool {
    forall|i: int| 0 <= i < s.len() ==> is_digit(#[trigger] s[i])
}

/// The number that a run of decimal digits denotes.
pub open spec fn digits_value(s: Seq<u8>) -> int
    decreases s.len(),
{
    if s.len() == 0 {
        0
    } else {
        digits_value(s.drop_last()) * 10 + (s.last() - 48)
    }
}

/// Text of a whole number: an optional minus sign and at least one digit.
pub open spec fn int_text(s: Seq<u8>) -> Option<int> {
    if s.len() > 0 && s[0] == 45 {
        let d = s.drop_first();
        if d.len() > 0 && all_digits(d) {
            Some(-digits_value(d))
        } else {
            None
        }
    } else if s.len() > 0 && all_digits(s) {
        Some(digits_value(s))
    } else {
        None
    }
}

/// Scale of the fixed-point numbers: millionths.
pub open spec fn micro() -> int {
    1000000
}

/// The first six digits after the point, padded with zeros, as millionths.
pub open spec fn frac_micros(f: Seq<u8>) -> int {
    digits_value(Seq::new(6, |j: int| if j < f.len() { f[j] } else { 48u8 }))
}

/// `body` is digits, a point at `d`, and digits.
pub open spec fn is_dot_split(body: Seq<u8>, d: int) -> bool {
    &&& 0 < d
    &&& d + 1 < body.len()
    &&& body[d] == 46
    &&& all_digits(body.take(d))
    &&& all_digits(body.skip(d + 1))
}

/// Millionths denoted by an unsigned decimal: digits, optionally a point and digits.
pub open spec fn unsigned_fixed(body: Seq<u8>) -> Option<int> {
    if body.len() > 0 && all_digits(body) {
        Some(digits_value(body) * micro())
    } else if exists|d: int| is_dot_split(body, d) {
        let d = choose|d: int| is_dot_split(body, d);
        Some(digits_value(body.take(d)) * micro() + frac_micros(body.skip(d + 1)))
    } else {
        None
    }
}

/// Millionths denoted by a decimal with an optional minus sign; digits past the
/// sixth after the point are dropped.
pub open spec fn fixed_text(s: Seq<u8>) -> Option<int> {
    let neg = s.len() > 0 && s[0] == 45;
    let body = if neg { s.drop_first() } else { s };
    match unsigned_fixed(body) {
        Some(v) => Some(if neg { -v } else { v }),
        None => None,
    }
}

/// `o`, where it has a magnitude of at most `i64::MAX`.
pub open spec fn bounded(o: Option<int>) -> Option<int> {
    match o {
        Some(v) => if -(i64::MAX as int) <= v <= i64::MAX {
            Some(v)
        } else {
            None
        },
        None => None,
    }
}

pub open spec fn in_i64(o: Option<int>, r: Option<i64>) -> bool {
    match bounded(o) {
        Some(v) => r == Some(v as i64),
        None => r is None,
    }
}

/// The whole number that a text denotes, within `i64`.
pub open spec fn int_of(s: Seq<char>) -> Option<int> {
    bounded(int_text(vstd::utf8::encode_utf8(s)))
}

/// The millionths that a decimal text denotes, within `i64`.
pub open spec fn fixed_of(s: Seq<char>) -> Option<int> {
    bounded(fixed_text(vstd::utf8::encode_utf8(s)))
}

/// Lexicographic order is transitive.
pub proof fn lemma_bytes_lt_transitive(a: Seq<u8>, b: Seq<u8>, c: Seq<u8>)
    requires
        bytes_lt(a, b),
        bytes_lt(b, c),
    ensures
        bytes_lt(a, c),
    decreases a.len(),
{
    if a.len() > 0 && a[0] == b[0] && b[0] == c[0] {
        lemma_bytes_lt_transitive(a.drop_first(), b.drop_first(), c.drop_first());
    }
}

/// Lexicographic order is asymmetric.
pub proof fn lemma_bytes_lt_asymmetric(a: Seq<u8>, b: Seq<u8>)
    ensures
        !(bytes_lt(a, b) && bytes_lt(b, a)),
    decreases a.len(),
{
    if a.len() > 0 && b.len() > 0 && a[0] == b[0] {
        lemma_bytes_lt_asymmetric(a.drop_first(), b.drop_first());
    }
}

proof fn lemma_digits_value_monotone(s: Seq<u8>, k: int)
    requires
        0 <= k <= s.len(),
        all_digits(s),
    ensures
        digits_value(s.take(k)) <= digits_value(s),
        0 <= digits_value(s.take(k)),
    decreases s.len(),
{
    if k == s.len() {
        assert(s.take(k) =~= s);
        if s.len() > 0 {
            assert(all_digits(s.drop_last()));
            lemma_digits_value_monotone(s.drop_last(), k - 1);
            assert(s.drop_last().take(k - 1) =~= s.drop_last());
        }
    } else {
        assert(all_digits(s.drop_last()));
        lemma_digits_value_monotone(s.drop_last(), k);
        assert(s.drop_last().take(k) =~= s.take(k));
        assert(s.drop_last().take(s.len() - 1) =~= s.drop_last());
        lemma_digits_value_monotone(s.drop_last(), s.len() - 1);
    }
}

/// Value of the digits `b[start..end]`, where they are at least one digit and
/// denote at most `i64::MAX`.
fn parse_digits(b: &[u8], start: usize, end: usize) -> (r: Option<u64>)
    requires
        start <= end <= b@.len(),
    ensures
        ({
            let d = b@.subrange(start as int, end as int);
            match r {
                Some(v) => d.len() > 0 && all_digits(d) && v == digits_value(d) && v <= i64::MAX,
                None => !(d.len() > 0 && all_digits(d) && digits_value(d) <= i64::MAX),
            }
        }),
{
    if start == end {
        return None;
    }
    let ghost d = b@.subrange(start as int, end as int);
    let mut acc: u64 = 0;
    let mut i: usize = start;
    while i < end
        invariant
            start <= i <= end <= b@.len(),
            d == b@.subrange(start as int, end as int),
            all_digits(d.take(i - start)),
            acc == digits_value(d.take(i - start)),
            acc <= i64::MAX,
        decreases end - i,
    {
        let c = b[i];
        assert(d[i - start] == c);
        if c < 48 || c > 57 {
            return None;
        }
        let v: u64 = (c - 48) as u64;
        assert(d.take(i - start + 1).drop_last() =~= d.take(i - start));
        assert(all_digits(d.take(i - start + 1)));
        if acc > (0x7fff_ffff_ffff_ffffu64 - v) / 10 {
            proof {
                assert(all_digits(d) ==> digits_value(d) > i64::MAX) by {
                    if all_digits(d) {
                        lemma_digits_value_monotone(d, i - start + 1);
                    }
                }
            }
            return None;
        }
        acc = acc * 10 + v;
        i = i + 1;
    }
    assert(d.take(i - start) =~= d);
    Some(acc)
}

/// Reads a whole number, as `int_text` says.
pub fn parse_int(s: &str) -> (r: Option<i64>)
    ensures
        in_i64(int_text(s.spec_bytes()), r),
{
    let b = s.as_bytes();
    let n = b.len();
    if n > 0 && b[0] == 45 {
        assert(b@.subrange(1, n as int) =~= b@.drop_first());
        match parse_digits(b, 1, n) {
            Some(v) => Some(-(v as i64)),
            None => None,
        }
    } else {
        assert(b@.subrange(0, n as int) =~= b@);
        match parse_digits(b, 0, n) {
            Some(v) => Some(v as i64),
            None => None,
        }
    }
}


pub open spec fn pow10(k: nat) -> int
    decreases k,
{
    if k == 0 {
        1
    } else {
        pow10((k - 1) as nat) * 10
    }
}

proof fn lemma_pow10_bound(j: nat)
    requires
        j <= 6,
    ensures
        0 < pow10(j) <= 1000000,
    decreases 6 - j,
{
    if j < 6 {
        lemma_pow10_bound(j + 1);
    } else {
        reveal_with_fuel(pow10, 7);
    }
}

proof fn lemma_unique_dot(body: Seq<u8>, d: int)
    requires
        0 <= d < body.len(),
        body[d] == 46,
        all_digits(body.take(d)),
    ensures
        forall|e: int| #[trigger] is_dot_split(body, e) ==> e == d,
{
    assert forall|e: int| #[trigger] is_dot_split(body, e) implies e == d by {
        if e < d {
            assert(body.take(d)[e] == body[e]);
        } else if e > d {
            assert(body.take(e)[d] == body[d]);
        }
    }
}

/// Whether `b[start..end]` holds digits only.
fn digits_only(b: &[u8], start: usize, end: usize) -> (r: bool)
    requires
        start <= end <= b@.len(),
    ensures
        r == all_digits(b@.subrange(start as int, end as int)),
{
    let mut k: usize = start;
    while k < end
        invariant
            start <= k <= end <= b@.len(),
            forall|q: int| start <= q < k ==> is_digit(#[trigger] b@[q]),
        decreases end - k,
    {
        if b[k] < 48 || b[k] > 57 {
            assert(!is_digit(b@.subrange(start as int, end as int)[k - start]));
            return false;
        }
        k = k + 1;
    }
    assert forall|q: int| 0 <= q < end - start implies is_digit(
        #[trigger] b@.subrange(start as int, end as int)[q],
    ) by {
        assert(b@.subrange(start as int, end as int)[q] == b@[start + q]);
    }
    true
}

/// Reads a decimal as millionths, as `fixed_text` says.
pub fn parse_fixed(s: &str) -> (r: Option<i64>)
    ensures
        in_i64(fixed_text(s.spec_bytes()), r),
{
    let b = s.as_bytes();
    let n = b.len();
    let neg = n > 0 && b[0] == 45;
    let start: usize = if neg { 1 } else { 0 };
    let ghost body = b@.subrange(start as int, n as int);
    assert(body =~= (if neg { b@.drop_first() } else { b@ }));
    let mut i: usize = start;
    while i < n && 48 <= b[i] && b[i] <= 57
        invariant
            start <= i <= n == b@.len(),
            body == b@.subrange(start as int, n as int),
            all_digits(body.take(i - start)),
        decreases n - i,
    {
        assert(body.take(i - start + 1) =~= body.take(i - start).push(b@[i as int]));
        i = i + 1;
    }
    if i == n {
        assert(body.take(i - start) =~= body);
        let ip = match parse_digits(b, start, n) {
            Some(v) => v,
            None => {
                assert(body.len() == 0 ==> !(exists|e: int| is_dot_split(body, e)));
                return None;
            },
        };
        let total: i128 = ip as i128 * 1000000;
        if total > 0x7fff_ffff_ffff_ffffi128 {
            return None;
        }
        let t = total as i64;
        return if neg { Some(-t) } else { Some(t) };
    }
    if b[i] != 46 || i == start {
        proof {
            assert(!all_digits(body)) by {
                assert(!is_digit(body[i - start]));
            }
            assert forall|e: int| !#[trigger] is_dot_split(body, e) by {
                if is_dot_split(body, e) {
                    if e < i - start {
                        assert(body.take(i - start)[e] == body[e]);
                    } else if e > i - start {
                        assert(body.take(e)[i - start] == body[i - start]);
                    }
                }
            }
        }
        return None;
    }
    let ghost d = i - start;
    proof {
        lemma_unique_dot(body, d);
        assert(!all_digits(body)) by {
            assert(!is_digit(body[d]));
        }
    }
    let ghost frac = body.skip(d + 1);
    assert(frac =~= b@.subrange(i + 1, n as int));
    if !digits_only(b, i + 1, n) {
        return None;
    }
    if i + 1 == n {
        return None;
    }
    assert(all_digits(frac));
    let ghost pad = Seq::new(6, |j: int| if j < frac.len() { frac[j] } else { 48u8 });
    let mut f: i128 = 0;
    let mut j: usize = 0;
    while j < 6
        invariant
            j <= 6,
            i + 1 < n == b@.len(),
            frac.len() == n - i - 1,
            forall|q: int| 0 <= q < frac.len() ==> #[trigger] frac[q] == b@[i + 1 + q],
            all_digits(frac),
            pad == Seq::new(6, |j: int| if j < frac.len() { frac[j] } else { 48u8 }),
            f == digits_value(pad.take(j as int)),
            0 <= f < pow10(j as nat),
        decreases 6 - j,
    {
        proof {
            lemma_pow10_bound(j as nat);
        }
        let c: u8 = if j < n - i - 1 { b[i + 1 + j] } else { 48 };
        assert(pad[j as int] == c);
        assert(pad.take(j + 1).drop_last() =~= pad.take(j as int));
        f = f * 10 + (c - 48) as i128;
        j = j + 1;
    }
    assert(pad.take(6) =~= pad);
    assert(pow10(6) == 1000000) by {
        reveal_with_fuel(pow10, 7);
    }
    assert(body.take(d) =~= b@.subrange(start as int, i as int));
    assert(is_dot_split(body, d));
    assert(frac_micros(frac) == f);
    let ip = match parse_digits(b, start, i) {
        Some(v) => v,
        None => {
            return None;
        },
    };
    let total: i128 = ip as i128 * 1000000 + f;
    if total > 0x7fff_ffff_ffff_ffffi128 {
        return None;
    }
    let t = total as i64;
    if neg { Some(-t) } else { Some(t) }
}


/// Whether two texts are equal, compared byte by byte.
pub fn str_eq(a: &str, b: &str) -> (r: bool)
    ensures
        r == (a@ == b@),
{
    let x = a.as_bytes();
    let y = b.as_bytes();
    proof {
        vstd::utf8::encode_utf8_decode_utf8(a@);
        vstd::utf8::encode_utf8_decode_utf8(b@);
    }
    if x.len() != y.len() {
        return false;
    }
    let mut i: usize = 0;
    while i < x.len()
        invariant
            x@ == a.spec_bytes(),
            y@ == b.spec_bytes(),
            x@.len() == y@.len(),
            i <= x@.len(),
            forall|k: int| 0 <= k < i ==> x@[k] == y@[k],
        decreases x@.len() - i,
    {
        if x[i] != y[i] {
            return false;
        }
        i = i + 1;
    }
    assert(x@ =~= y@);
    true
}

/// A byte with ASCII upper case letters mapped to lower case.
pub open spec fn lower_byte(c: u8) -> u8 {
    if 65 <= c <= 90 {
        (c + 32) as u8
    } else {
        c
    }
}

/// Whether `a` equals the lower case word `w`, ignoring ASCII case.
pub open spec fn eq_ignore_case(a: Seq<char>, w: Seq<char>) -> bool {
    let x = vstd::utf8::encode_utf8(a);
    let y = vstd::utf8::encode_utf8(w);
    x.len() == y.len() && forall|k: int| 0 <= k < x.len() ==> lower_byte(#[trigger] x[k]) == y[k]
}

/// Whether `a` equals the lower case word `w`, ignoring ASCII case.
pub fn str_eq_ignore_case(a: &str, w: &str) -> (r: bool)
    ensures
        r == eq_ignore_case(a@, w@),
{
    let x = a.as_bytes();
    let y = w.as_bytes();
    if x.len() != y.len() {
        return false;
    }
    let mut i: usize = 0;
    while i < x.len()
        invariant
            x@ == a.spec_bytes(),
            y@ == w.spec_bytes(),
            x@.len() == y@.len(),
            i <= x@.len(),
            forall|k: int| 0 <= k < i ==> lower_byte(#[trigger] x@[k]) == y@[k],
        decreases x@.len() - i,
    {
        let c = x[i];
        let l: u8 = if 65 <= c && c <= 90 { c + 32 } else { c };
        if l != y[i] {
            return false;
        }
        i = i + 1;
    }
    true
}

} // verus!
