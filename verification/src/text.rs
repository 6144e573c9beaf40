//! Verified text helpers: string equality, lexicographic order, substring
//! search, decimal formatting and parsing, and ASCII name normalization.

use vstd::prelude::*;

verus! {

/// Character-wise equality of two string slices, decided in executable code.
pub fn str_eq(a: &str, b: &str) -> (r: bool)
    ensures
        r == (a@ == b@),
{
    let alen = a.unicode_len();
    let blen = b.unicode_len();
    if alen != blen {
        assert(a@ != b@) by {
            assert(a@.len() != b@.len());
        }
        return false;
    }
    let mut i: usize = 0;
    while i < alen
        invariant
            alen == a@.len(),
            blen == b@.len(),
            alen == blen,
            i <= alen,
            forall|k: int| 0 <= k < i ==> a@[k] == b@[k],
        decreases alen - i,
    {
        if a.get_char(i) != b.get_char(i) {
            return false;
        }
        i = i + 1;
    }
    proof {
        assert(a@ =~= b@);
    }
    true
}

/// Strict lexicographic order on character sequences: `a` comes before `b`
/// when they first differ at a position where `a` has the smaller character,
/// or when `a` is a proper prefix of `b`.
pub open spec fn lex_lt(a: Seq<char>, b: Seq<char>) -> bool {
    exists|i: int|
        #![trigger b[i]]
        0 <= i < b.len() && i <= a.len() && a.subrange(0, i) == b.subrange(0, i) && (i == a.len()
            || a[i] < b[i])
}

/// Decide `lex_lt` on string slices.
pub fn str_lex_lt(a: &str, b: &str) -> (r: bool)
    ensures
        r == lex_lt(a@, b@),
{
    let alen = a.unicode_len();
    let blen = b.unicode_len();
    let mut i: usize = 0;
    while i < alen && i < blen
        invariant
            alen == a@.len(),
            blen == b@.len(),
            i <= alen,
            i <= blen,
            forall|k: int| 0 <= k < i ==> a@[k] == b@[k],
        decreases alen - i,
    {
        let ca = a.get_char(i);
        let cb = b.get_char(i);
        if ca < cb {
            assert(lex_lt(a@, b@)) by {
                let w = i as int;
                assert(a@.subrange(0, w) =~= b@.subrange(0, w));
                assert(0 <= w < b@.len() && w <= a@.len() && a@.subrange(0, w) == b@.subrange(0, w)
                    && (w == a@.len() || a@[w] < b@[w]));
            }
            return true;
        }
        if cb < ca {
            assert(!lex_lt(a@, b@)) by {
                assert forall|j: int|
                    0 <= j < b@.len() && j <= a@.len() && a@.subrange(0, j) == b@.subrange(0, j)
                    implies !(j == a@.len() || a@[j] < b@[j]) by {
                    if j > i as int {
                        assert(a@.subrange(0, j)[i as int] == b@.subrange(0, j)[i as int]);
                        assert(a@[i as int] == b@[i as int]);
                    }
                }
            }
            return false;
        }
        i = i + 1;
    }
    if alen < blen {
        assert(lex_lt(a@, b@)) by {
            let w = alen as int;
            let probe = b@[w];
            assert(a@.subrange(0, w) =~= b@.subrange(0, w));
            assert(0 <= w < b@.len() && w <= a@.len() && a@.subrange(0, w) == b@.subrange(0, w) && (
            w == a@.len() || a@[w] < b@[w]));
        }
        true
    } else {
        assert(!lex_lt(a@, b@)) by {
            assert forall|j: int|
                0 <= j < b@.len() && j <= a@.len() && a@.subrange(0, j) == b@.subrange(0, j)
                implies !(j == a@.len() || a@[j] < b@[j]) by {
                assert(a@[j] == b@[j]);
            }
        }
        false
    }
}

/// A strict comparison of the tails lifts to the whole sequences when the
/// heads agree.
proof fn lemma_lex_lift(x: Seq<char>, y: Seq<char>)
    requires
        x.len() > 0,
        y.len() > 0,
        x[0] == y[0],
        lex_lt(x.drop_first(), y.drop_first()),
    ensures
        lex_lt(x, y),
{
    let tx = x.drop_first();
    let ty = y.drop_first();
    assert(exists|i: int|
        #![trigger ty[i]]
        0 <= i < ty.len() && i <= tx.len() && tx.subrange(0, i) == ty.subrange(0, i) && (i
            == tx.len() || tx[i] < ty[i])) by {
        assert(lex_lt(tx, ty));
    }
    let i = choose|i: int|
        #![trigger ty[i]]
        0 <= i < ty.len() && i <= tx.len() && tx.subrange(0, i) == ty.subrange(0, i) && (i
            == tx.len() || tx[i] < ty[i]);
    let w = i + 1;
    assert forall|k: int| 0 <= k < w implies x[k] == y[k] by {
        if k >= 1 {
            assert(tx.subrange(0, i)[k - 1] == ty.subrange(0, i)[k - 1]);
            assert(x[k] == tx[k - 1]);
            assert(y[k] == ty[k - 1]);
        }
    }
    assert(lex_lt(x, y)) by {
        let probe = y[w];
        assert(x.subrange(0, w) =~= y.subrange(0, w));
        assert(0 <= w < y.len() && w <= x.len() && x.subrange(0, w) == y.subrange(0, w) && (w
            == x.len() || x[w] < y[w]));
    }
}

/// A strict comparison of nonempty sequences bounds the heads.
proof fn lemma_lex_head_le(a: Seq<char>, b: Seq<char>)
    requires
        a.len() > 0,
        b.len() > 0,
        lex_lt(a, b),
    ensures
        a[0] <= b[0],
{
    if a[0] > b[0] {
        assert(!lex_lt(a, b)) by {
            assert forall|j: int|
                0 <= j < b.len() && j <= a.len() && a.subrange(0, j) == b.subrange(0, j) implies !(
            j == a.len() || a[j] < b[j]) by {
                if j > 0 {
                    assert(a.subrange(0, j)[0] == b.subrange(0, j)[0]);
                    assert(a[0] == b[0]);
                }
            }
        }
    }
}

/// A strict comparison with equal heads pushes down to the tails.
proof fn lemma_lex_pop(a: Seq<char>, b: Seq<char>)
    requires
        a.len() > 0,
        b.len() > 0,
        a[0] == b[0],
        lex_lt(a, b),
    ensures
        lex_lt(a.drop_first(), b.drop_first()),
{
    let ta = a.drop_first();
    let tb = b.drop_first();
    if !lex_lt(ta, tb) {
        assert(!lex_lt(a, b)) by {
            assert forall|j: int|
                0 <= j < b.len() && j <= a.len() && a.subrange(0, j) == b.subrange(0, j) implies !(
            j == a.len() || a[j] < b[j]) by {
                if j == 0 {
                    assert(a.len() > 0 && a[0] == b[0]);
                } else {
                    // Otherwise j - 1 would witness the tails' comparison.
                    let jt = j - 1;
                    let probe = tb[jt];
                    assert(ta.subrange(0, jt) =~= tb.subrange(0, jt)) by {
                        assert forall|k: int| 0 <= k < jt implies ta[k] == tb[k] by {
                            assert(a.subrange(0, j)[k + 1] == b.subrange(0, j)[k + 1]);
                            assert(ta[k] == a[k + 1]);
                            assert(tb[k] == b[k + 1]);
                        }
                    }
                    assert(!(0 <= jt < tb.len() && jt <= ta.len() && ta.subrange(0, jt)
                        == tb.subrange(0, jt) && (jt == ta.len() || ta[jt] < tb[jt])));
                    assert(!(jt == ta.len() || ta[jt] < tb[jt]));
                    assert(a[j] == ta[jt] && b[j] == tb[jt]);
                }
            }
        }
        assert(false);
    }
}

/// Law: the lexicographic order is total — any two character sequences are
/// ordered one way, the other, or equal.
pub proof fn lemma_lex_total(a: Seq<char>, b: Seq<char>)
    ensures
        lex_lt(a, b) || lex_lt(b, a) || a == b,
    decreases a.len(),
{
    if a.len() == 0 {
        if b.len() == 0 {
            assert(a =~= b);
        } else {
            assert(lex_lt(a, b)) by {
                let probe = b[0];
                assert(a.subrange(0, 0) =~= b.subrange(0, 0));
                assert(0 <= 0 < b.len() && 0 <= a.len() && a.subrange(0, 0) == b.subrange(0, 0)
                    && (0 == a.len() || a[0] < b[0]));
            }
        }
    } else if b.len() == 0 {
        assert(lex_lt(b, a)) by {
            let probe = a[0];
            assert(b.subrange(0, 0) =~= a.subrange(0, 0));
            assert(0 <= 0 < a.len() && 0 <= b.len() && b.subrange(0, 0) == a.subrange(0, 0) && (0
                == b.len() || b[0] < a[0]));
        }
    } else if a[0] < b[0] {
        assert(lex_lt(a, b)) by {
            let probe = b[0];
            assert(a.subrange(0, 0) =~= b.subrange(0, 0));
            assert(0 <= 0 < b.len() && 0 <= a.len() && a.subrange(0, 0) == b.subrange(0, 0) && (0
                == a.len() || a[0] < b[0]));
        }
    } else if b[0] < a[0] {
        assert(lex_lt(b, a)) by {
            let probe = a[0];
            assert(b.subrange(0, 0) =~= a.subrange(0, 0));
            assert(0 <= 0 < a.len() && 0 <= b.len() && b.subrange(0, 0) == a.subrange(0, 0) && (0
                == b.len() || b[0] < a[0]));
        }
    } else {
        let ta = a.drop_first();
        let tb = b.drop_first();
        lemma_lex_total(ta, tb);
        if lex_lt(ta, tb) {
            lemma_lex_lift(a, b);
        } else if lex_lt(tb, ta) {
            lemma_lex_lift(b, a);
        } else {
            assert forall|k: int| 0 <= k < a.len() implies a[k] == b[k] by {
                if k >= 1 {
                    assert(a[k] == ta[k - 1]);
                    assert(b[k] == tb[k - 1]);
                }
            }
            assert(a =~= b);
        }
    }
}

/// Law: the lexicographic order is transitive.
pub proof fn lemma_lex_trans(a: Seq<char>, b: Seq<char>, c: Seq<char>)
    requires
        lex_lt(a, b),
        lex_lt(b, c),
    ensures
        lex_lt(a, c),
    decreases a.len(),
{
    if b.len() == 0 {
        assert(!lex_lt(a, b)) by {
            assert forall|j: int|
                0 <= j < b.len() && j <= a.len() && a.subrange(0, j) == b.subrange(0, j) implies !(
            j == a.len() || a[j] < b[j]) by {}
        }
    } else if c.len() == 0 {
        assert(!lex_lt(b, c)) by {
            assert forall|j: int|
                0 <= j < c.len() && j <= b.len() && b.subrange(0, j) == c.subrange(0, j) implies !(
            j == b.len() || b[j] < c[j]) by {}
        }
    } else if a.len() == 0 {
        assert(lex_lt(a, c)) by {
            let probe = c[0];
            assert(a.subrange(0, 0) =~= c.subrange(0, 0));
            assert(0 <= 0 < c.len() && 0 <= a.len() && a.subrange(0, 0) == c.subrange(0, 0) && (0
                == a.len() || a[0] < c[0]));
        }
    } else {
        lemma_lex_head_le(a, b);
        lemma_lex_head_le(b, c);
        if a[0] < c[0] {
            assert(lex_lt(a, c)) by {
                let probe = c[0];
                assert(a.subrange(0, 0) =~= c.subrange(0, 0));
                assert(0 <= 0 < c.len() && 0 <= a.len() && a.subrange(0, 0) == c.subrange(0, 0)
                    && (0 == a.len() || a[0] < c[0]));
            }
        } else {
            assert(a[0] == b[0] && b[0] == c[0]);
            lemma_lex_pop(a, b);
            lemma_lex_pop(b, c);
            lemma_lex_trans(a.drop_first(), b.drop_first(), c.drop_first());
            lemma_lex_lift(a, c);
        }
    }
}

/// `sub` occurs in `s` starting at position `i`.
pub open spec fn match_at(s: Seq<char>, sub: Seq<char>, i: int) -> bool {
    0 <= i && i + sub.len() <= s.len() && s.subrange(i, i + sub.len() as int) == sub
}

/// `sub` occurs somewhere in `s`.
pub open spec fn has_sub(s: Seq<char>, sub: Seq<char>) -> bool {
    exists|i: int| match_at(s, sub, i)
}

/// Substring search: does `sub` occur in `s`?
pub fn str_contains(s: &str, sub: &str) -> (r: bool)
    ensures
        r == has_sub(s@, sub@),
{
    let slen = s.unicode_len();
    let sublen = sub.unicode_len();
    if sublen > slen {
        assert(!has_sub(s@, sub@));
        return false;
    }
    if sublen == 0 {
        assert(match_at(s@, sub@, 0)) by {
            assert(s@.subrange(0, 0) =~= sub@);
        }
        return true;
    }
    let bound = slen - sublen;
    let mut i: usize = 0;
    while i <= bound
        invariant
            slen == s@.len(),
            sublen == sub@.len(),
            1 <= sublen <= slen,
            bound == slen - sublen,
            i <= bound + 1,
            forall|p: int| 0 <= p < i ==> !match_at(s@, sub@, p),
        decreases bound + 1 - i,
    {
        let mut j: usize = 0;
        let mut mismatch = false;
        while j < sublen
            invariant
                slen == s@.len(),
                sublen == sub@.len(),
                i + sublen <= slen,
                j <= sublen,
                !mismatch ==> forall|k: int| 0 <= k < j ==> s@[i + k] == sub@[k],
                mismatch ==> !match_at(s@, sub@, i as int),
            decreases sublen - j,
        {
            if !mismatch {
                let cs = s.get_char(i + j);
                let cb = sub.get_char(j);
                if cs != cb {
                    mismatch = true;
                    assert(!match_at(s@, sub@, i as int)) by {
                        if match_at(s@, sub@, i as int) {
                            assert(s@.subrange(i as int, i + sub@.len() as int)[j as int]
                                == sub@[j as int]);
                        }
                    }
                }
            }
            j = j + 1;
        }
        if !mismatch {
            assert(match_at(s@, sub@, i as int)) by {
                assert(s@.subrange(i as int, i + sub@.len() as int) =~= sub@);
            }
            return true;
        }
        i = i + 1;
    }
    assert forall|p: int| !match_at(s@, sub@, p) by {
        if 0 <= p < i {
        } else {
            assert(!(0 <= p && p + sub@.len() <= s@.len()) || p >= i);
        }
    }
    false
}

/// The decimal digit character for a value below ten.
pub open spec fn dec_digit(d: int) -> char {
    if d == 0 {
        '0'
    } else if d == 1 {
        '1'
    } else if d == 2 {
        '2'
    } else if d == 3 {
        '3'
    } else if d == 4 {
        '4'
    } else if d == 5 {
        '5'
    } else if d == 6 {
        '6'
    } else if d == 7 {
        '7'
    } else if d == 8 {
        '8'
    } else {
        '9'
    }
}

/// The decimal rendering of a natural number, without leading zeros
/// (except for zero itself).
pub open spec fn dec_str(n: nat) -> Seq<char>
    decreases n,
{
    if n < 10 {
        seq![dec_digit(n as int)]
    } else {
        dec_str(n / 10).push(dec_digit((n % 10) as int))
    }
}

/// The decimal rendering of a signed value: a minus sign for negatives,
/// then the magnitude.
pub open spec fn dec_str_signed(v: int) -> Seq<char> {
    if v < 0 {
        seq!['-'] + dec_str((-v) as nat)
    } else {
        dec_str(v as nat)
    }
}

/// The one-character string for a decimal digit.
fn digit_str(d: u64) -> (r: &'static str)
    requires
        d < 10,
    ensures
        r@ =~= seq![dec_digit(d as int)],
{
    proof {
        reveal_strlit("0");
        reveal_strlit("1");
        reveal_strlit("2");
        reveal_strlit("3");
        reveal_strlit("4");
        reveal_strlit("5");
        reveal_strlit("6");
        reveal_strlit("7");
        reveal_strlit("8");
        reveal_strlit("9");
    }
    if d == 0 {
        "0"
    } else if d == 1 {
        "1"
    } else if d == 2 {
        "2"
    } else if d == 3 {
        "3"
    } else if d == 4 {
        "4"
    } else if d == 5 {
        "5"
    } else if d == 6 {
        "6"
    } else if d == 7 {
        "7"
    } else if d == 8 {
        "8"
    } else {
        "9"
    }
}

/// Render an unsigned value in decimal.
pub fn u64_to_dec(n: u64) -> (r: String)
    ensures
        r@ == dec_str(n as nat),
    decreases n,
{
    if n < 10 {
        let d = digit_str(n);
        d.to_owned()
    } else {
        let mut s = u64_to_dec(n / 10);
        let d = digit_str(n % 10);
        s.append(d);
        proof {
            assert(s@ =~= dec_str(n as nat));
        }
        s
    }
}

/// Render a signed value in decimal.
pub fn i64_to_dec(v: i64) -> (r: String)
    ensures
        r@ == dec_str_signed(v as int),
{
    if v >= 0 {
        u64_to_dec(v as u64)
    } else {
        let m: u64 = (-(v as i128)) as u64;
        let mut s = String::new();
        proof {
            reveal_strlit("-");
        }
        s.append("-");
        let mag = u64_to_dec(m);
        s.append(mag.as_str());
        proof {
            assert("-"@ =~= seq!['-']);
            assert(s@ =~= dec_str_signed(v as int));
        }
        s
    }
}

/// A decimal digit character.
pub open spec fn is_digit(c: char) -> bool {
    '0' <= c && c <= '9'
}

/// Every character of `s` is a decimal digit.
pub open spec fn all_digits(s: Seq<char>) -> bool {
    forall|k: int| 0 <= k < s.len() ==> is_digit(#[trigger] s[k])
}

/// The numeric value of a digit character.
pub open spec fn digit_val(c: char) -> int {
    c as int - '0' as int
}

/// The value of a digit string read in base ten.
pub open spec fn dec_val(s: Seq<char>) -> int
    decreases s.len(),
{
    if s.len() == 0 {
        0
    } else {
        dec_val(s.drop_last()) * 10 + digit_val(s.last())
    }
}

proof fn lemma_dec_val_nonneg(s: Seq<char>)
    requires
        all_digits(s),
    ensures
        dec_val(s) >= 0,
    decreases s.len(),
{
    if s.len() > 0 {
        assert(all_digits(s.drop_last())) by {
            assert(forall|k: int| 0 <= k < s.len() - 1 ==> s.drop_last()[k] == s[k]);
        }
        lemma_dec_val_nonneg(s.drop_last());
    }
}

proof fn lemma_dec_val_prefix_le(s: Seq<char>, i: int)
    requires
        all_digits(s),
        0 <= i <= s.len(),
    ensures
        dec_val(s.take(i)) <= dec_val(s),
    decreases s.len() - i,
{
    if i < s.len() {
        lemma_dec_val_prefix_le(s, i + 1);
        let t = s.take(i + 1);
        assert(t.drop_last() =~= s.take(i));
        assert(all_digits(s.take(i))) by {
            assert(forall|k: int| 0 <= k < i ==> s.take(i)[k] == s[k]);
        }
        lemma_dec_val_nonneg(s.take(i));
        assert(dec_val(t) == dec_val(s.take(i)) * 10 + digit_val(t.last()));
        assert(digit_val(t.last()) >= 0);
    } else {
        assert(s.take(i) =~= s);
    }
}

/// What an unsigned decimal string denotes: at least one digit, value within
/// the unsigned range.
pub open spec fn parsed_u64(s: Seq<char>) -> Option<int> {
    if s.len() > 0 && all_digits(s) && dec_val(s) <= u64::MAX {
        Some(dec_val(s))
    } else {
        None
    }
}

/// Parse an unsigned decimal integer as `parsed_u64` describes.
pub fn parse_u64(s: &str) -> (r: Option<u64>)
    ensures
        r is Some <==> parsed_u64(s@) is Some,
        r is Some ==> r->0 == parsed_u64(s@)->0,
{
    let len = s.unicode_len();
    if len == 0 {
        return None;
    }
    let mut i: usize = 0;
    let mut acc: u64 = 0;
    while i < len
        invariant
            len == s@.len(),
            i <= len,
            all_digits(s@.take(i as int)),
            acc == dec_val(s@.take(i as int)),
        decreases len - i,
    {
        let c = s.get_char(i);
        if c < '0' || c > '9' {
            assert(!all_digits(s@));
            return None;
        }
        let d: u64 = (c as u32 - '0' as u32) as u64;
        proof {
            assert(s@.take(i + 1).drop_last() =~= s@.take(i as int));
            assert(all_digits(s@.take(i + 1))) by {
                assert(forall|k: int| 0 <= k < i + 1 ==> s@.take(i + 1)[k] == s@[k]);
            }
        }
        let next = match acc.checked_mul(10) {
            Some(v) => v,
            None => {
                proof {
                    if all_digits(s@) {
                        lemma_dec_val_prefix_le(s@, i + 1);
                        lemma_dec_val_nonneg(s@.take(i + 1));
                    }
                }
                return None;
            },
        };
        let next = match next.checked_add(d) {
            Some(v) => v,
            None => {
                proof {
                    if all_digits(s@) {
                        lemma_dec_val_prefix_le(s@, i + 1);
                        lemma_dec_val_nonneg(s@.take(i + 1));
                    }
                }
                return None;
            },
        };
        acc = next;
        i = i + 1;
    }
    proof {
        assert(s@.take(len as int) =~= s@);
    }
    Some(acc)
}

/// What a signed decimal string denotes: an optional minus sign, then at
/// least one digit; the value must fit in `i64`.
pub open spec fn parsed_i64(s: Seq<char>) -> Option<int> {
    if s.len() > 0 && s[0] == '-' {
        let m = s.drop_first();
        if m.len() > 0 && all_digits(m) && -dec_val(m) >= i64::MIN {
            Some(-dec_val(m))
        } else {
            None
        }
    } else if s.len() > 0 && all_digits(s) && dec_val(s) <= i64::MAX {
        Some(dec_val(s))
    } else {
        None
    }
}

/// Parse a signed decimal integer as `parsed_i64` describes.
pub fn parse_i64(s: &str) -> (r: Option<i64>)
    ensures
        r is Some <==> parsed_i64(s@) is Some,
        r is Some ==> r->0 == parsed_i64(s@)->0,
{
    let len = s.unicode_len();
    if len == 0 {
        return None;
    }
    if s.get_char(0) == '-' {
        let rest = s.substring_char(1, len);
        proof {
            assert(rest@ =~= s@.drop_first());
        }
        match parse_u64(rest) {
            Some(m) => {
                if m <= 0x7fff_ffff_ffff_ffffu64 {
                    Some(-(m as i64))
                } else if m == 0x8000_0000_0000_0000u64 {
                    Some(i64::MIN)
                } else {
                    None
                }
            },
            None => {
                proof {
                    if s@.drop_first().len() > 0 && all_digits(s@.drop_first()) {
                        lemma_dec_val_nonneg(s@.drop_first());
                    }
                }
                None
            },
        }
    } else {
        match parse_u64(s) {
            Some(v) => {
                if v <= 0x7fff_ffff_ffff_ffffu64 {
                    Some(v as i64)
                } else {
                    None
                }
            },
            None => None,
        }
    }
}

/// ASCII-lowercase a character: uppercase ASCII letters map to their
/// lowercase forms, everything else is unchanged.
pub open spec fn lower_char(c: char) -> char {
    if 'A' <= c && c <= 'Z' {
        (((c as u8) + 32) as u8) as char
    } else {
        c
    }
}

/// A lowercase ASCII letter.
pub open spec fn is_lower_alpha(c: char) -> bool {
    'a' <= c && c <= 'z'
}

/// ASCII-lowercase the string and keep only the lowercase ASCII letters of
/// the result: the normal form used to key external lookups by name.
pub open spec fn normalized_alpha(s: Seq<char>) -> Seq<char>
    decreases s.len(),
{
    if s.len() == 0 {
        Seq::empty()
    } else {
        let rest = normalized_alpha(s.drop_last());
        let c = lower_char(s.last());
        if is_lower_alpha(c) {
            rest.push(c)
        } else {
            rest
        }
    }
}

/// Relies on `String::from_utf8` from std: ASCII bytes are valid UTF-8 and
/// decode to the string of exactly those characters.
#[verifier::external_body]
fn string_from_ascii(bytes: Vec<u8>) -> (r: String)
    requires
        forall|k: int| 0 <= k < bytes@.len() ==> bytes@[k] < 128,
    ensures
        r@.len() == bytes@.len(),
        forall|k: int| 0 <= k < bytes@.len() ==> r@[k] == bytes@[k] as char,
{
    String::from_utf8(bytes).unwrap()
}

/// Compute the lowercase-alphabetic normal form of a string.
pub fn normalize_alpha(s: &str) -> (r: String)
    ensures
        r@ == normalized_alpha(s@),
{
    let len = s.unicode_len();
    let mut bytes: Vec<u8> = Vec::new();
    let mut i: usize = 0;
    while i < len
        invariant
            len == s@.len(),
            i <= len,
            forall|k: int| 0 <= k < bytes@.len() ==> bytes@[k] < 128,
            bytes@.map_values(|b: u8| b as char) =~= normalized_alpha(s@.take(i as int)),
        decreases len - i,
    {
        let c = s.get_char(i);
        proof {
            assert(s@.take(i + 1).drop_last() =~= s@.take(i as int));
        }
        if c >= 'a' && c <= 'z' {
            bytes.push(c as u8);
        } else if c >= 'A' && c <= 'Z' {
            bytes.push(c as u8 + 32);
        }
        proof {
            assert(bytes@.map_values(|b: u8| b as char) =~= normalized_alpha(s@.take(i + 1)));
        }
        i = i + 1;
    }
    proof {
        assert(s@.take(len as int) =~= s@);
    }
    let r = string_from_ascii(bytes);
    proof {
        assert(r@ =~= normalized_alpha(s@));
    }
    r
}

} // verus!
