//! Byte-level scanning primitives shared by the parser and the encoder:
//! CRLF search, token and digit classification, case folding, trimming,
//! and decimal / hexadecimal numerals.

use vstd::prelude::*;

verus! {

/// Carriage return.
pub const CR: u8 = 13;
/// Line feed.
pub const LF: u8 = 10;

/// A CRLF pair begins at index `i` of `s`.
pub open spec fn is_crlf_at(s: Seq<u8>, i: int) -> bool {
    0 <= i && i + 2 <= s.len() && s[i] == CR && s[i + 1] == LF
}

/// Index of the first CRLF pair in `s`, if any.
pub open spec fn find_crlf(s: Seq<u8>) -> Option<int>
    decreases s.len(),
{
    if s.len() < 2 {
        None
    } else if s[0] == CR && s[1] == LF {
        Some(0int)
    } else {
        match find_crlf(s.skip(1)) {
            None => None,
            Some(i) => Some(i + 1),
        }
    }
}

/// A CRLF in a suffix is a CRLF of the whole, shifted.
pub proof fn lemma_crlf_skip(s: Seq<u8>, from: int, k: int)
    requires
        0 <= from <= s.len(),
        0 <= k,
    ensures
        is_crlf_at(s.skip(from), k) <==> is_crlf_at(s, from + k),
{
    if k + 2 <= s.len() - from {
        assert(s.skip(from)[k] == s[from + k]);
        assert(s.skip(from)[k + 1] == s[from + k + 1]);
    }
}

/// `find_crlf` returns the least index carrying a CRLF pair.
pub proof fn lemma_find_crlf_char(s: Seq<u8>)
    ensures
        match find_crlf(s) {
            Some(i) => is_crlf_at(s, i) && (forall|j: int| 0 <= j < i ==> !is_crlf_at(s, j)),
            None => forall|j: int| !is_crlf_at(s, j),
        },
    decreases s.len(),
{
    if s.len() < 2 {
    } else if s[0] == CR && s[1] == LF {
    } else {
        lemma_find_crlf_char(s.skip(1));
        assert(forall|j: int| 0 <= j < s.len() - 1 ==> s.skip(1)[j] == s[j + 1]);
        match find_crlf(s.skip(1)) {
            Some(i) => {
                assert(is_crlf_at(s, i + 1));
                assert forall|j: int| 0 <= j < i + 1 implies !is_crlf_at(s, j) by {
                    if j > 0 {
                        assert(!is_crlf_at(s.skip(1), j - 1));
                    }
                }
            },
            None => {
                assert forall|j: int| !is_crlf_at(s, j) by {
                    if j > 0 {
                        assert(!is_crlf_at(s.skip(1), j - 1));
                    }
                }
            },
        }
    }
}

/// A least CRLF witness pins down `find_crlf`.
pub proof fn lemma_find_crlf_unique(s: Seq<u8>, i: int)
    requires
        is_crlf_at(s, i),
        forall|j: int| 0 <= j < i ==> !is_crlf_at(s, j),
    ensures
        find_crlf(s) == Some(i),
{
    lemma_find_crlf_char(s);
}

/// Appending bytes does not move an already-found first CRLF.
pub proof fn lemma_find_crlf_append(s: Seq<u8>, t: Seq<u8>)
    requires
        find_crlf(s) is Some,
    ensures
        find_crlf(s + t) == find_crlf(s),
    decreases s.len(),
{
    assert(s.len() >= 2) by {
        lemma_find_crlf_char(s);
    }
    if s[0] == CR && s[1] == LF {
        assert((s + t)[0] == CR && (s + t)[1] == LF);
    } else {
        assert(find_crlf(s.skip(1)) is Some);
        lemma_find_crlf_append(s.skip(1), t);
        assert((s + t).skip(1) =~= s.skip(1) + t);
        assert((s + t)[0] == s[0] && (s + t)[1] == s[1]);
    }
}

/// Scan for the first CRLF at or after `from`.
pub fn find_crlf_from(s: &[u8], from: usize) -> (r: Option<usize>)
    requires
        from <= s@.len(),
    ensures
        match r {
            Some(i) => from <= i && i + 2 <= s@.len() && find_crlf(s@.skip(from as int))
                == Some(i - from),
            None => find_crlf(s@.skip(from as int)) is None,
        },
{
    let n: usize = s.len();
    let mut i: usize = from;
    while n - i > 1
        invariant
            from <= i <= n == s@.len(),
            forall|j: int| from <= j < i ==> !is_crlf_at(s@, j),
        decreases n - i,
    {
        if s[i] == CR && s[i + 1] == LF {
            proof {
                assert forall|k: int| 0 <= k < i - from implies !is_crlf_at(
                    s@.skip(from as int),
                    k,
                ) by {
                    lemma_crlf_skip(s@, from as int, k);
                }
                lemma_crlf_skip(s@, from as int, i - from);
                assert(is_crlf_at(s@, from + (i - from)));
                lemma_find_crlf_unique(s@.skip(from as int), i - from);
            }
            return Some(i);
        }
        i = i + 1;
    }
    proof {
        assert forall|k: int| !is_crlf_at(s@.skip(from as int), k) by {
            if 0 <= k {
                lemma_crlf_skip(s@, from as int, k);
                assert(!is_crlf_at(s@, from + k));
            }
        }
        lemma_find_crlf_char(s@.skip(from as int));
    }
    None
}

/// Index of the first occurrence of `b` in `s`, if any.
pub open spec fn find_byte(s: Seq<u8>, b: u8) -> Option<int>
    decreases s.len(),
{
    if s.len() == 0 {
        None
    } else if s[0] == b {
        Some(0int)
    } else {
        match find_byte(s.skip(1), b) {
            None => None,
            Some(i) => Some(i + 1),
        }
    }
}

/// `find_byte` returns the least index holding `b`.
pub proof fn lemma_find_byte_char(s: Seq<u8>, b: u8)
    ensures
        match find_byte(s, b) {
            Some(i) => 0 <= i < s.len() && s[i] == b && (forall|j: int|
                0 <= j < i ==> s[j] != b),
            None => forall|j: int| 0 <= j < s.len() ==> s[j] != b,
        },
    decreases s.len(),
{
    if s.len() == 0 {
    } else if s[0] == b {
    } else {
        lemma_find_byte_char(s.skip(1), b);
        assert(forall|j: int| 0 <= j < s.len() - 1 ==> s.skip(1)[j] == s[j + 1]);
        match find_byte(s.skip(1), b) {
            Some(i) => {
                assert(s[i + 1] == b);
                assert forall|j: int| 0 <= j < i + 1 implies s[j] != b by {
                    if j > 0 {
                        assert(s.skip(1)[j - 1] != b);
                    }
                }
            },
            None => {
                assert forall|j: int| 0 <= j < s.len() implies s[j] != b by {
                    if j > 0 {
                        assert(s.skip(1)[j - 1] != b);
                    }
                }
            },
        }
    }
}

/// A least witness for `b` pins down `find_byte`.
pub proof fn lemma_find_byte_unique(s: Seq<u8>, b: u8, i: int)
    requires
        0 <= i < s.len(),
        s[i] == b,
        forall|j: int| 0 <= j < i ==> s[j] != b,
    ensures
        find_byte(s, b) == Some(i),
{
    lemma_find_byte_char(s, b);
}

/// Scan for the first occurrence of `b` at or after `from`.
pub fn find_byte_from(s: &[u8], from: usize, b: u8) -> (r: Option<usize>)
    requires
        from <= s@.len(),
    ensures
        match r {
            Some(i) => from <= i && i < s@.len() && find_byte(s@.skip(from as int), b)
                == Some(i - from),
            None => find_byte(s@.skip(from as int), b) is None,
        },
{
    let n: usize = s.len();
    let mut i: usize = from;
    while i < n
        invariant
            from <= i <= n == s@.len(),
            forall|j: int| from <= j < i ==> s@[j] != b,
        decreases n - i,
    {
        if s[i] == b {
            proof {
                assert forall|k: int| 0 <= k < i - from implies s@.skip(from as int)[k] != b by {
                    assert(s@.skip(from as int)[k] == s@[from + k]);
                }
                assert(s@.skip(from as int)[i - from] == s@[i as int]);
                lemma_find_byte_unique(s@.skip(from as int), b, i - from);
            }
            return Some(i);
        }
        i = i + 1;
    }
    proof {
        assert forall|k: int| 0 <= k < s@.len() - from implies s@.skip(from as int)[k] != b by {
            assert(s@.skip(from as int)[k] == s@[from + k]);
        }
        lemma_find_byte_char(s@.skip(from as int), b);
    }
    None
}

/// Fold an ASCII uppercase letter to lowercase; leave other bytes alone.
pub open spec fn lower_byte(b: u8) -> u8 {
    if 65 <= b && b <= 90 {
        (b + 32) as u8
    } else {
        b
    }
}

/// Fold every ASCII uppercase letter in `s` to lowercase.
pub open spec fn lower(s: Seq<u8>) -> Seq<u8> {
    s.map_values(|b: u8| lower_byte(b))
}

/// Lowercase a byte string.
pub fn to_lower(s: &[u8]) -> (r: Vec<u8>)
    ensures
        r@ == lower(s@),
{
    let mut r: Vec<u8> = Vec::new();
    let mut i: usize = 0;
    while i < s.len()
        invariant
            0 <= i <= s@.len(),
            r@.len() == i,
            forall|j: int| 0 <= j < i ==> r@[j] == lower_byte(s@[j]),
        decreases s@.len() - i,
    {
        let b = s[i];
        if 65 <= b && b <= 90 {
            r.push(b + 32);
        } else {
            r.push(b);
        }
        i = i + 1;
    }
    proof {
        assert(r@ =~= lower(s@));
    }
    r
}

/// A byte of the HTTP header-name token alphabet:
/// letters, digits, and `! # $ % & ' * + - . ^ _ ` | ~`.
pub open spec fn is_tchar(b: u8) -> bool {
    (48 <= b && b <= 57) || (65 <= b && b <= 90) || (97 <= b && b <= 122) || b == 33 || b == 35
        || b == 36 || b == 37 || b == 38 || b == 39 || b == 42 || b == 43 || b == 45 || b == 46
        || b == 94 || b == 95 || b == 96 || b == 124 || b == 126
}

/// A nonempty byte string made only of token bytes.
pub open spec fn is_token(s: Seq<u8>) -> bool {
    s.len() > 0 && forall|i: int| 0 <= i < s.len() ==> is_tchar(s[i])
}

/// Decide `is_token`.
pub fn check_token(s: &[u8]) -> (r: bool)
    ensures
        r == is_token(s@),
{
    if s.len() == 0 {
        return false;
    }
    let mut i: usize = 0;
    while i < s.len()
        invariant
            0 <= i <= s@.len(),
            forall|j: int| 0 <= j < i ==> is_tchar(s@[j]),
        decreases s@.len() - i,
    {
        let b = s[i];
        let ok = (48 <= b && b <= 57) || (65 <= b && b <= 90) || (97 <= b && b <= 122) || b == 33
            || b == 35 || b == 36 || b == 37 || b == 38 || b == 39 || b == 42 || b == 43 || b == 45
            || b == 46 || b == 94 || b == 95 || b == 96 || b == 124 || b == 126;
        if !ok {
            return false;
        }
        i = i + 1;
    }
    true
}

/// Space or horizontal tab.
pub open spec fn is_ws(b: u8) -> bool {
    b == 32 || b == 9
}

/// Drop leading whitespace.
pub open spec fn trim_front(s: Seq<u8>) -> Seq<u8>
    decreases s.len(),
{
    if s.len() > 0 && is_ws(s[0]) {
        trim_front(s.skip(1))
    } else {
        s
    }
}

/// Drop trailing whitespace.
pub open spec fn trim_back(s: Seq<u8>) -> Seq<u8>
    decreases s.len(),
{
    if s.len() > 0 && is_ws(s[s.len() - 1]) {
        trim_back(s.take(s.len() - 1))
    } else {
        s
    }
}

/// Drop surrounding whitespace.
pub open spec fn trim(s: Seq<u8>) -> Seq<u8> {
    trim_back(trim_front(s))
}

proof fn lemma_trim_front_skip(s: Seq<u8>, k: int)
    requires
        0 <= k <= s.len(),
        forall|j: int| 0 <= j < k ==> is_ws(s[j]),
        k == s.len() || !is_ws(s[k]),
    ensures
        trim_front(s) == s.skip(k),
    decreases k,
{
    if k == 0 {
        assert(s.skip(0) =~= s);
    } else {
        assert(forall|j: int| 0 <= j < s.len() - 1 ==> s.skip(1)[j] == s[j + 1]);
        lemma_trim_front_skip(s.skip(1), k - 1);
        assert(s.skip(1).skip(k - 1) =~= s.skip(k));
    }
}

proof fn lemma_trim_back_take(s: Seq<u8>, m: int)
    requires
        0 <= m <= s.len(),
        forall|j: int| m <= j < s.len() ==> is_ws(s[j]),
        m == 0 || !is_ws(s[m - 1]),
    ensures
        trim_back(s) == s.take(m),
    decreases s.len(),
{
    if m == s.len() {
        assert(s.take(m) =~= s);
    } else {
        assert(is_ws(s[s.len() - 1]));
        assert(forall|j: int| 0 <= j < s.len() - 1 ==> s.take(s.len() - 1)[j] == s[j]);
        lemma_trim_back_take(s.take(s.len() - 1), m);
        assert(s.take(s.len() - 1).take(m) =~= s.take(m));
    }
}

/// Copy `s` with surrounding whitespace removed.
pub fn trim_bytes(s: &[u8]) -> (r: Vec<u8>)
    ensures
        r@ == trim(s@),
{
    let n: usize = s.len();
    let mut a: usize = 0;
    while a < n && (s[a] == 32 || s[a] == 9)
        invariant
            0 <= a <= n == s@.len(),
            forall|j: int| 0 <= j < a ==> is_ws(s@[j]),
        decreases n - a,
    {
        a = a + 1;
    }
    proof {
        lemma_trim_front_skip(s@, a as int);
    }
    if a == n {
        proof {
            assert(s@.skip(a as int).len() == 0);
            assert(trim(s@) =~= Seq::<u8>::empty());
        }
        return Vec::new();
    }
    let mut j: usize = n;
    while j > a && (s[j - 1] == 32 || s[j - 1] == 9)
        invariant
            a <= j <= n == s@.len(),
            forall|k: int| j <= k < n ==> is_ws(s@[k]),
        decreases j,
    {
        j = j - 1;
    }
    proof {
        let tf = s@.skip(a as int);
        assert(forall|k: int| 0 <= k < tf.len() ==> tf[k] == s@[a + k]);
        assert(!is_ws(tf[0]));
        assert(j > a);
        lemma_trim_back_take(tf, j - a);
        assert(tf.take(j - a) =~= s@.subrange(a as int, j as int));
    }
    let r = vstd::slice::slice_to_vec(vstd::slice::slice_subrange(s, a, j));
    r
}

/// An ASCII decimal digit.
pub open spec fn is_digit(b: u8) -> bool {
    48 <= b && b <= 57
}

/// Every byte of `s` is a decimal digit.
pub open spec fn all_digits(s: Seq<u8>) -> bool {
    forall|i: int| 0 <= i < s.len() ==> is_digit(s[i])
}

/// Value of `s` read as a decimal numeral.
pub open spec fn dec_val(s: Seq<u8>) -> int
    decreases s.len(),
{
    if s.len() == 0 {
        0
    } else {
        dec_val(s.take(s.len() - 1)) * 10 + (s[s.len() - 1] - 48)
    }
}

pub proof fn lemma_dec_val_nonneg(s: Seq<u8>)
    requires
        all_digits(s),
    ensures
        dec_val(s) >= 0,
    decreases s.len(),
{
    if s.len() > 0 {
        assert(forall|j: int| 0 <= j < s.len() - 1 ==> s.take(s.len() - 1)[j] == s[j]);
        lemma_dec_val_nonneg(s.take(s.len() - 1));
    }
}

proof fn lemma_dec_val_prefix(s: Seq<u8>, i: int)
    requires
        all_digits(s),
        0 <= i <= s.len(),
    ensures
        dec_val(s.take(i)) <= dec_val(s),
    decreases s.len(),
{
    if i == s.len() {
        assert(s.take(i) =~= s);
    } else {
        let s1 = s.take(s.len() - 1);
        assert(forall|j: int| 0 <= j < s.len() - 1 ==> s1[j] == s[j]);
        lemma_dec_val_nonneg(s1);
        lemma_dec_val_prefix(s1, i);
        assert(s1.take(i) =~= s.take(i));
    }
}

/// Parse a decimal numeral that fits in `usize`.
pub fn parse_dec(s: &[u8]) -> (r: Option<usize>)
    ensures
        match r {
            Some(n) => s@.len() > 0 && all_digits(s@) && dec_val(s@) <= usize::MAX && n == dec_val(
                s@,
            ),
            None => !(s@.len() > 0 && all_digits(s@) && dec_val(s@) <= usize::MAX),
        },
{
    if s.len() == 0 {
        return None;
    }
    let mut acc: u128 = 0;
    let mut i: usize = 0;
    while i < s.len()
        invariant
            0 <= i <= s@.len(),
            forall|j: int| 0 <= j < i ==> is_digit(s@[j]),
            acc == dec_val(s@.take(i as int)),
            acc <= usize::MAX as u128,
        decreases s@.len() - i,
    {
        let b = s[i];
        if !(48 <= b && b <= 57) {
            return None;
        }
        let next: u128 = acc * 10 + ((b - 48) as u128);
        proof {
            assert(s@.take(i + 1).take(i as int) =~= s@.take(i as int));
            assert(s@.take(i + 1)[i as int] == s@[i as int]);
            assert(next == dec_val(s@.take(i + 1)));
        }
        if next > (usize::MAX as u128) {
            proof {
                if all_digits(s@) {
                    lemma_dec_val_prefix(s@, i + 1);
                }
            }
            return None;
        }
        acc = next;
        i = i + 1;
    }
    proof {
        assert(s@.take(s@.len() as int) =~= s@);
    }
    Some(acc as usize)
}

/// The decimal numeral of `n`, most significant digit first.
pub open spec fn dec_of(n: int) -> Seq<u8>
    decreases n,
{
    if n < 10 {
        seq![(48 + if n >= 0 { n } else { 0 }) as u8]
    } else {
        dec_of(n / 10) + seq![(48 + n % 10) as u8]
    }
}

/// Render `n` as a decimal numeral.
pub fn usize_to_dec(n: usize) -> (r: Vec<u8>)
    ensures
        r@ == dec_of(n as int),
    decreases n,
{
    if n < 10 {
        let mut r: Vec<u8> = Vec::new();
        r.push(48 + (n as u8));
        proof {
            assert(r@ =~= dec_of(n as int));
        }
        r
    } else {
        let mut r = usize_to_dec(n / 10);
        r.push(48 + ((n % 10) as u8));
        proof {
            assert(r@ =~= dec_of(n as int));
        }
        r
    }
}

/// The hexadecimal digit for a value below 16, lowercase.
pub open spec fn hex_digit(n: int) -> u8 {
    if n < 10 {
        (48 + if n >= 0 { n } else { 0 }) as u8
    } else {
        (87 + if n <= 15 { n } else { 15 }) as u8
    }
}

/// The hexadecimal numeral of `n` without leading zeros, lowercase.
pub open spec fn hex_of(n: int) -> Seq<u8>
    decreases n,
{
    if n < 16 {
        seq![hex_digit(n)]
    } else {
        hex_of(n / 16) + seq![hex_digit(n % 16)]
    }
}

/// Render `n` as a hexadecimal numeral, lowercase, no leading zeros.
pub fn usize_to_hex(n: usize) -> (r: Vec<u8>)
    ensures
        r@ == hex_of(n as int),
    decreases n,
{
    if n < 16 {
        let d: u8 = if n < 10 {
            48 + (n as u8)
        } else {
            87 + (n as u8)
        };
        let mut r: Vec<u8> = Vec::new();
        r.push(d);
        proof {
            assert(r@ =~= hex_of(n as int));
        }
        r
    } else {
        let m: usize = n % 16;
        let d: u8 = if m < 10 {
            48 + (m as u8)
        } else {
            87 + (m as u8)
        };
        let mut r = usize_to_hex(n / 16);
        r.push(d);
        proof {
            assert(r@ =~= hex_of(n as int));
        }
        r
    }
}

/// The two lowercase hexadecimal digits of every byte of `s`, in order.
pub open spec fn hex_bytes_of(s: Seq<u8>) -> Seq<u8>
    decreases s.len(),
{
    if s.len() == 0 {
        Seq::empty()
    } else {
        hex_bytes_of(s.take(s.len() - 1)) + seq![
            hex_digit(s[s.len() - 1] as int / 16),
            hex_digit(s[s.len() - 1] as int % 16),
        ]
    }
}

/// Byte-string equality.
pub fn bytes_eq(a: &[u8], b: &[u8]) -> (r: bool)
    ensures
        r == (a@ == b@),
{
    if a.len() != b.len() {
        return false;
    }
    let mut i: usize = 0;
    while i < a.len()
        invariant
            0 <= i <= a@.len() == b@.len(),
            forall|j: int| 0 <= j < i ==> a@[j] == b@[j],
        decreases a@.len() - i,
    {
        if a[i] != b[i] {
            return false;
        }
        i = i + 1;
    }
    proof {
        assert(a@ =~= b@);
    }
    true
}

} // verus!

verus! {

/// Relies on core::str::from_utf8, which succeeds exactly on UTF-8 input.
#[verifier::external_body]
pub fn utf8_check(v: &[u8]) -> (r: bool)
    ensures
        r == vstd::utf8::valid_utf8(v@),
{
    core::str::from_utf8(v).is_ok()
}

} // verus!

verus! {

/// Append a copy of `src` to `dst`.
pub fn append_bytes(dst: &mut Vec<u8>, src: &[u8])
    ensures
        final(dst)@ == old(dst)@ + src@,
{
    let mut t = vstd::slice::slice_to_vec(src);
    dst.append(&mut t);
}

} // verus!

verus! {

/// `pat` occurs in `s` starting at index `i`.
pub open spec fn is_match_at(s: Seq<u8>, pat: Seq<u8>, i: int) -> bool {
    0 <= i && i + pat.len() <= s.len() && s.subrange(i, i + pat.len()) == pat
}

/// Index of the first occurrence of `pat` in `s`, if any.
pub open spec fn find_sub(s: Seq<u8>, pat: Seq<u8>) -> Option<int>
    decreases s.len(),
{
    if s.len() < pat.len() {
        None
    } else if s.take(pat.len() as int) == pat {
        Some(0int)
    } else if s.len() == pat.len() {
        None
    } else {
        match find_sub(s.skip(1), pat) {
            None => None,
            Some(i) => Some(i + 1),
        }
    }
}

/// `find_sub` returns the least index where `pat` occurs.
pub proof fn lemma_find_sub_char(s: Seq<u8>, pat: Seq<u8>)
    ensures
        match find_sub(s, pat) {
            Some(i) => is_match_at(s, pat, i) && (forall|j: int|
                0 <= j < i ==> !is_match_at(s, pat, j)),
            None => forall|j: int| !is_match_at(s, pat, j),
        },
    decreases s.len(),
{
    if s.len() < pat.len() {
    } else if s.take(pat.len() as int) == pat {
        assert(s.take(pat.len() as int) =~= s.subrange(0, pat.len() as int));
    } else {
        assert(s.subrange(0, pat.len() as int) =~= s.take(pat.len() as int));
        if s.len() == pat.len() {
            assert forall|j: int| !is_match_at(s, pat, j) by {
                if 0 <= j && j + pat.len() <= s.len() {
                    assert(j == 0);
                }
            }
        } else {
            lemma_find_sub_char(s.skip(1), pat);
            match find_sub(s.skip(1), pat) {
                Some(i) => {
                    assert(s.skip(1).subrange(i, i + pat.len()) =~= s.subrange(
                        i + 1,
                        i + 1 + pat.len(),
                    ));
                    assert(is_match_at(s, pat, i + 1));
                    assert forall|j: int| 0 <= j < i + 1 implies !is_match_at(s, pat, j) by {
                        if j > 0 {
                            assert(!is_match_at(s.skip(1), pat, j - 1));
                            if j + pat.len() <= s.len() {
                                assert(s.skip(1).subrange(j - 1, j - 1 + pat.len()) =~= s.subrange(
                                    j,
                                    j + pat.len(),
                                ));
                            }
                        }
                    }
                },
                None => {
                    assert forall|j: int| !is_match_at(s, pat, j) by {
                        if j > 0 {
                            assert(!is_match_at(s.skip(1), pat, j - 1));
                            if 0 <= j && j + pat.len() <= s.len() {
                                assert(s.skip(1).subrange(j - 1, j - 1 + pat.len()) =~= s.subrange(
                                    j,
                                    j + pat.len(),
                                ));
                            }
                        }
                    }
                },
            }
        }
    }
}

/// A least match pins down `find_sub`.
pub proof fn lemma_find_sub_unique(s: Seq<u8>, pat: Seq<u8>, i: int)
    requires
        is_match_at(s, pat, i),
        forall|j: int| 0 <= j < i ==> !is_match_at(s, pat, j),
    ensures
        find_sub(s, pat) == Some(i),
{
    lemma_find_sub_char(s, pat);
}

/// Scan for the first occurrence of `pat` in `s`.
#[verifier::loop_isolation(false)]
pub fn find_sub_at(s: &[u8], pat: &[u8]) -> (r: Option<usize>)
    requires
        pat@.len() >= 1,
    ensures
        match r {
            Some(i) => find_sub(s@, pat@) == Some(i as int) && i + pat@.len() <= s@.len(),
            None => find_sub(s@, pat@) is None,
        },
{
    let n: usize = s.len();
    let plen: usize = pat.len();
    if plen > n {
        proof {
            lemma_find_sub_char(s@, pat@);
        }
        return None;
    }
    let mut i: usize = 0;
    while i <= n - plen
        invariant
            0 <= i <= n - plen + 1,
            forall|j: int| 0 <= j < i ==> !is_match_at(s@, pat@, j),
        decreases n - i,
    {
        let window = vstd::slice::slice_subrange(s, i, i + plen);
        if bytes_eq(window, pat) {
            proof {
                assert(window@ =~= s@.subrange(i as int, i + pat@.len()));
                lemma_find_sub_unique(s@, pat@, i as int);
            }
            return Some(i);
        }
        proof {
            assert(window@ =~= s@.subrange(i as int, i + pat@.len()));
        }
        i = i + 1;
    }
    proof {
        assert forall|j: int| !is_match_at(s@, pat@, j) by {
            if 0 <= j && j + pat@.len() <= s@.len() {
                assert(j < i);
            }
        }
        lemma_find_sub_char(s@, pat@);
    }
    None
}

/// `s` with every occurrence of `pat` replaced by `sub`, scanning left
/// to right and never rescanning replaced text.
pub open spec fn spec_replace(s: Seq<u8>, pat: Seq<u8>, sub: Seq<u8>) -> Seq<u8>
    decreases s.len(),
{
    if pat.len() == 0 {
        s
    } else {
        match find_sub(s, pat) {
            None => s,
            Some(i) => {
                if 0 <= i && i + pat.len() <= s.len() {
                    s.take(i) + sub + spec_replace(s.skip(i + pat.len()), pat, sub)
                } else {
                    s
                }
            },
        }
    }
}

/// Replace every occurrence of `pat` in `s` by `sub`.
pub fn replace_bytes(s: &[u8], pat: &[u8], sub: &[u8]) -> (r: Vec<u8>)
    requires
        pat@.len() >= 1,
    ensures
        r@ == spec_replace(s@, pat@, sub@),
    decreases s@.len(),
{
    match find_sub_at(s, pat) {
        None => vstd::slice::slice_to_vec(s),
        Some(i) => {
            let mut r = vstd::slice::slice_to_vec(vstd::slice::slice_subrange(s, 0, i));
            proof {
                assert(r@ =~= s@.take(i as int));
            }
            append_bytes(&mut r, sub);
            let n: usize = s.len();
            let tail = vstd::slice::slice_subrange(s, i + pat.len(), n);
            proof {
                assert(tail@ =~= s@.skip(i + pat@.len()));
            }
            let rest = replace_bytes(tail, pat, sub);
            append_bytes(&mut r, rest.as_slice());
            r
        },
    }
}

} // verus!
