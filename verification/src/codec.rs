use vstd::prelude::*;

verus! {

use crate::model::Workspace;
use crate::model::WsView;
use crate::model::Event;
use crate::model::EventView;
use crate::model::wviews;

// ---------------------------------------------------------------------------
// Decimal numbers
// ---------------------------------------------------------------------------

/// An ASCII decimal digit.
pub open spec fn is_digit(b: u8) -> bool {
    48 <= b <= 57
}

/// The canonical decimal form of `n`: no sign, no leading zero.
pub open spec fn dec_digits(n: u64) -> Seq<u8>
    decreases n,
{
    if n < 10 {
        seq![(n + 48) as u8]
    } else {
        dec_digits(n / 10).push(((n % 10) + 48) as u8)
    }
}

/// The numeric value of a digit string, most significant digit first.
pub open spec fn dec_val(s: Seq<u8>) -> int
    decreases s.len(),
{
    if s.len() == 0 {
        0
    } else {
        dec_val(s.drop_last()) * 10 + (s.last() - 48)
    }
}

pub open spec fn all_digits(s: Seq<u8>) -> bool {
    forall|i: int| 0 <= i < s.len() ==> is_digit(s[i])
}

proof fn lemma_dec_digits_shape(n: u64)
    ensures
        dec_digits(n).len() >= 1,
        all_digits(dec_digits(n)),
        n >= 1 ==> dec_digits(n)[0] != 48,
        n < 10 ==> dec_digits(n) == seq![(n + 48) as u8],
    decreases n,
{
    if n >= 10 {
        lemma_dec_digits_shape(n / 10);
        let t = dec_digits(n / 10);
        let p = t.push(((n % 10) + 48) as u8);
        assert forall|i: int| 0 <= i < p.len() implies is_digit(#[trigger] p[i]) by {
            if i < t.len() {
                assert(is_digit(t[i]));
            }
        }
    }
}

proof fn lemma_dec_val_of_digits(n: u64)
    ensures
        dec_val(dec_digits(n)) == n,
    decreases n,
{
    if n < 10 {
        assert(dec_digits(n).drop_last() =~= Seq::<u8>::empty());
        assert(dec_val(Seq::<u8>::empty()) == 0);
        assert(dec_digits(n).last() == (n + 48) as u8);
    } else {
        lemma_dec_val_of_digits(n / 10);
        let t = dec_digits(n / 10);
        assert(t.push(((n % 10) + 48) as u8).drop_last() =~= t);
    }
}

proof fn lemma_dec_val_nonneg(s: Seq<u8>)
    requires
        all_digits(s),
    ensures
        dec_val(s) >= 0,
    decreases s.len(),
{
    if s.len() > 0 {
        assert(all_digits(s.drop_last()));
        lemma_dec_val_nonneg(s.drop_last());
    }
}

proof fn lemma_dec_val_prefix_le(s: Seq<u8>, i: int)
    requires
        all_digits(s),
        0 <= i <= s.len(),
    ensures
        dec_val(s.subrange(0, i)) <= dec_val(s),
    decreases s.len(),
{
    if i == s.len() {
        assert(s.subrange(0, i) =~= s);
    } else {
        assert(all_digits(s.drop_last()));
        assert(s.subrange(0, i) =~= s.drop_last().subrange(0, i));
        lemma_dec_val_prefix_le(s.drop_last(), i);
        lemma_dec_val_nonneg(s.drop_last());
        assert(is_digit(s.last()));
    }
}

proof fn lemma_dec_val_first_nonzero(s: Seq<u8>)
    requires
        all_digits(s),
        s.len() >= 1,
        s[0] != 48,
    ensures
        dec_val(s) >= 1,
    decreases s.len(),
{
    if s.len() == 1 {
        assert(s.drop_last() =~= Seq::<u8>::empty());
        assert(dec_val(Seq::<u8>::empty()) == 0);
    } else {
        assert(all_digits(s.drop_last()));
        lemma_dec_val_first_nonzero(s.drop_last());
        assert(is_digit(s.last()));
    }
}

/// A digit string in canonical form is the canonical form of its value.
proof fn lemma_canonical_digits(s: Seq<u8>)
    requires
        all_digits(s),
        s.len() >= 1,
        s[0] != 48 || s.len() == 1,
        dec_val(s) <= u64::MAX,
    ensures
        dec_digits(dec_val(s) as u64) == s,
    decreases s.len(),
{
    lemma_dec_val_nonneg(s);
    if s.len() == 1 {
        assert(s.drop_last() =~= Seq::<u8>::empty());
        assert(dec_val(Seq::<u8>::empty()) == 0);
        assert(s.last() == s[0]);
        assert(dec_val(s) == s[0] - 48);
        assert(dec_digits(dec_val(s) as u64) =~= s);
    } else {
        let t = s.drop_last();
        let d = s.last();
        assert(all_digits(t));
        assert(is_digit(d));
        lemma_dec_val_nonneg(t);
        lemma_dec_val_first_nonzero(t);
        let n = dec_val(s);
        assert(n == dec_val(t) * 10 + (d - 48));
        assert(dec_val(t) <= u64::MAX) by {
            assert(n <= u64::MAX);
        }
        lemma_canonical_digits(t);
        assert(n >= 10);
        let m = n as u64;
        assert(m / 10 == dec_val(t) && m % 10 == d - 48) by {
            vstd::arithmetic::div_mod::lemma_fundamental_div_mod_converse(
                n,
                10,
                dec_val(t),
                d - 48,
            );
        }
        assert(dec_digits(m) =~= s);
    }
}

/// Appends the canonical decimal digits of `n`.
pub fn push_decimal(n: u64, out: &mut Vec<u8>)
    ensures
        final(out)@ == old(out)@ + dec_digits(n),
    decreases n,
{
    if n >= 10 {
        push_decimal(n / 10, out);
        out.push((n % 10) as u8 + 48);
        proof {
            assert(final(out)@ =~= old(out)@ + dec_digits(n));
        }
    } else {
        out.push(n as u8 + 48);
        proof {
            assert(final(out)@ =~= old(out)@ + dec_digits(n));
        }
    }
}

/// End of the run of digits that starts at `i`.
pub open spec fn digit_run_end(s: Seq<u8>, i: int) -> int
    decreases s.len() - i,
{
    if i < s.len() && is_digit(s[i]) {
        digit_run_end(s, i + 1)
    } else {
        i
    }
}

/// A number token: a canonical decimal that fits in a `u64`.
pub open spec fn spec_parse_number(s: Seq<u8>, i: int) -> Option<(u64, int)> {
    let j = digit_run_end(s, i);
    if j == i {
        None
    } else if s[i] == 48 && j > i + 1 {
        None
    } else if dec_val(s.subrange(i, j)) > u64::MAX {
        None
    } else {
        Some((dec_val(s.subrange(i, j)) as u64, j))
    }
}

proof fn lemma_digit_run_range(s: Seq<u8>, i: int)
    requires
        0 <= i <= s.len(),
    ensures
        i <= digit_run_end(s, i) <= s.len(),
        forall|k: int| i <= k < digit_run_end(s, i) ==> is_digit(s[k]),
        digit_run_end(s, i) < s.len() ==> !is_digit(s[digit_run_end(s, i)]),
    decreases s.len() - i,
{
    if i < s.len() && is_digit(s[i]) {
        lemma_digit_run_range(s, i + 1);
    }
}

fn parse_number(s: &[u8], i: usize) -> (r: Option<(u64, usize)>)
    requires
        i <= s@.len(),
    ensures
        (match r {
            Some((n, j)) => spec_parse_number(s@, i as int) == Some((n, j as int)),
            None => spec_parse_number(s@, i as int) is None,
        }),
{
    let len = s.len();
    let mut j = i;
    while j < len && s[j] >= 48 && s[j] <= 57
        invariant
            i <= j <= len,
            len == s@.len(),
            digit_run_end(s@, i as int) == digit_run_end(s@, j as int),
            forall|k: int| i <= k < j ==> is_digit(s@[k]),
        decreases len - j,
    {
        j += 1;
    }
    proof {
        assert(digit_run_end(s@, j as int) == j);
        lemma_digit_run_range(s@, i as int);
    }
    if j == i {
        return None;
    }
    if s[i] == 48 && j > i + 1 {
        return None;
    }
    let ghost run = s@.subrange(i as int, j as int);
    proof {
        assert(all_digits(run));
        lemma_dec_val_nonneg(run);
    }
    let mut acc: u64 = 0;
    let mut k = i;
    while k < j
        invariant
            i <= k <= j <= s@.len(),
            run == s@.subrange(i as int, j as int),
            all_digits(run),
            forall|t: int| i <= t < j ==> is_digit(s@[t]),
            digit_run_end(s@, i as int) == j,
            acc == dec_val(s@.subrange(i as int, k as int)),
        decreases j - k,
    {
        let d = s[k] - 48;
        proof {
            assert(is_digit(s@[k as int]));
            assert(s@.subrange(i as int, k + 1 as int).drop_last() =~= s@.subrange(
                i as int,
                k as int,
            ));
            assert(s@.subrange(i as int, k + 1 as int).last() == s@[k as int]);
        }
        if acc > (u64::MAX - d as u64) / 10 {
            proof {
                let part = s@.subrange(i as int, k + 1 as int);
                assert(dec_val(part) == acc * 10 + d);
                assert(dec_val(part) > u64::MAX);
                assert(part =~= run.subrange(0, k + 1 - i));
                lemma_dec_val_prefix_le(run, k + 1 - i);
            }
            return None;
        }
        acc = acc * 10 + d as u64;
        k += 1;
    }
    proof {
        assert(s@.subrange(i as int, j as int) == run);
    }
    Some((acc, j))
}

// ---------------------------------------------------------------------------
// Whitespace trimming
// ---------------------------------------------------------------------------

/// ASCII whitespace as the transport may leave it around a line.
pub open spec fn is_ws_byte(b: u8) -> bool {
    b == 32 || b == 9 || b == 10 || b == 13
}

/// First index at or after `i` holding a non-whitespace byte.
pub open spec fn ws_run_end(s: Seq<u8>, i: int) -> int
    decreases s.len() - i,
{
    if i < s.len() && is_ws_byte(s[i]) {
        ws_run_end(s, i + 1)
    } else {
        i
    }
}

/// End of the line once trailing whitespace before `j` is dropped.
pub open spec fn ws_run_start(s: Seq<u8>, j: int) -> int
    decreases j,
{
    if j > 0 && is_ws_byte(s[j - 1]) {
        ws_run_start(s, j - 1)
    } else {
        j
    }
}

/// The line with surrounding ASCII whitespace removed.
pub open spec fn spec_trim(s: Seq<u8>) -> Seq<u8> {
    let a = ws_run_end(s, 0);
    let b = ws_run_start(s, s.len() as int);
    if a >= b {
        Seq::empty()
    } else {
        s.subrange(a, b)
    }
}

proof fn lemma_ws_run_end_range(s: Seq<u8>, i: int)
    requires
        0 <= i <= s.len(),
    ensures
        i <= ws_run_end(s, i) <= s.len(),
    decreases s.len() - i,
{
    if i < s.len() && is_ws_byte(s[i]) {
        lemma_ws_run_end_range(s, i + 1);
    }
}

proof fn lemma_ws_run_start_range(s: Seq<u8>, j: int)
    requires
        0 <= j <= s.len(),
    ensures
        0 <= ws_run_start(s, j) <= j,
    decreases j,
{
    if j > 0 && is_ws_byte(s[j - 1]) {
        lemma_ws_run_start_range(s, j - 1);
    }
}

/// Drops leading and trailing ASCII whitespace, as the transport's line
/// reader leaves a trailing newline on every line.
pub fn trim_bytes<'a>(s: &'a [u8]) -> (r: &'a [u8])
    ensures
        r@ == spec_trim(s@),
{
    let len = s.len();
    let mut a: usize = 0;
    while a < len && (s[a] == 32 || s[a] == 9 || s[a] == 10 || s[a] == 13)
        invariant
            0 <= a <= len,
            len == s@.len(),
            ws_run_end(s@, 0) == ws_run_end(s@, a as int),
        decreases len - a,
    {
        a += 1;
    }
    proof {
        assert(ws_run_end(s@, a as int) == a);
    }
    let mut b = len;
    while b > a && (s[b - 1] == 32 || s[b - 1] == 9 || s[b - 1] == 10 || s[b - 1] == 13)
        invariant
            a <= b <= len,
            len == s@.len(),
            ws_run_start(s@, len as int) == ws_run_start(s@, b as int),
            forall|t: int| b <= t < len ==> is_ws_byte(s@[t]),
        decreases b,
    {
        b -= 1;
    }
    proof {
        if b > a {
            assert(ws_run_start(s@, b as int) == b);
        } else {
            lemma_ws_run_start_below(s@, len as int, b as int);
        }
    }
    if a >= b {
        let r = vstd::slice::slice_subrange(s, 0, 0);
        proof {
            assert(r@ =~= spec_trim(s@));
        }
        r
    } else {
        let r = vstd::slice::slice_subrange(s, a, b);
        r
    }
}

/// When everything from `c` on is whitespace, trailing trimming reaches `c`
/// or below.
proof fn lemma_ws_run_start_below(s: Seq<u8>, j: int, c: int)
    requires
        0 <= c <= j <= s.len(),
        forall|t: int| c <= t < j ==> is_ws_byte(s[t]),
    ensures
        ws_run_start(s, j) <= c,
    decreases j,
{
    if j > c {
        assert(is_ws_byte(s[j - 1]));
        lemma_ws_run_start_below(s, j - 1, c);
    } else {
        lemma_ws_run_start_range(s, j);
    }
}

// ---------------------------------------------------------------------------
// String tokens
// ---------------------------------------------------------------------------

/// The body of a string token, starting just after the opening quote:
/// printable bytes, with `\"` and `\\` escapes, up to the closing quote.
/// Yields the unescaped content and the index after the closing quote.
pub open spec fn scan_string_body(s: Seq<u8>, i: int) -> Option<(Seq<u8>, int)>
    decreases s.len() - i,
{
    if i >= s.len() {
        None
    } else if s[i] == 34 {
        Some((Seq::empty(), i + 1))
    } else if s[i] == 92 {
        if i + 1 < s.len() && (s[i + 1] == 34 || s[i + 1] == 92) {
            match scan_string_body(s, i + 2) {
                Some((c, e)) => Some((seq![s[i + 1]] + c, e)),
                None => None,
            }
        } else {
            None
        }
    } else if s[i] >= 32 {
        match scan_string_body(s, i + 1) {
            Some((c, e)) => Some((seq![s[i]] + c, e)),
            None => None,
        }
    } else {
        None
    }
}

/// Scans one string body, appending the unescaped content to `out`.
fn scan_string(s: &[u8], i: usize, out: &mut Vec<u8>) -> (r: Option<usize>)
    requires
        i <= s@.len(),
    ensures
        (match (r, scan_string_body(s@, i as int)) {
            (Some(j), Some((c, e))) => j as int == e && final(out)@ == old(out)@ + c,
            (None, None) => true,
            _ => false,
        }),
    decreases s@.len() - i,
{
    if i >= s.len() {
        return None;
    }
    let b = s[i];
    if b == 34 {
        proof {
            assert(out@ =~= out@ + Seq::<u8>::empty());
        }
        Some(i + 1)
    } else if b == 92 {
        if i + 1 < s.len() && (s[i + 1] == 34 || s[i + 1] == 92) {
            out.push(s[i + 1]);
            let ghost mid = out@;
            let r = scan_string(s, i + 2, out);
            proof {
                if let Some((c, e)) = scan_string_body(s@, i + 2 as int) {
                    assert(final(out)@ =~= old(out)@ + (seq![s@[i + 1]] + c));
                }
            }
            r
        } else {
            None
        }
    } else if b >= 32 {
        out.push(b);
        let ghost mid = out@;
        let r = scan_string(s, i + 1, out);
        proof {
            if let Some((c, e)) = scan_string_body(s@, i + 1 as int) {
                assert(final(out)@ =~= old(out)@ + (seq![s@[i as int]] + c));
            }
        }
        r
    } else {
        None
    }
}

// ---------------------------------------------------------------------------
// Skipping one well-formed value
// ---------------------------------------------------------------------------

/// One well-formed value of the wire grammar, starting at `i`: an object,
/// array, string, canonical `u64` number, `true`, `false` or `null`. Yields
/// the index just past it. This is what makes unknown payloads decodable:
/// a recognised frame around an arbitrary well-formed value.
pub open spec fn skip_value(s: Seq<u8>, i: int) -> Option<int>
    decreases s.len() - i, 0int,
{
    if i >= s.len() {
        None
    } else {
        let b = s[i];
        if b == 110 {
            if i + 3 < s.len() && s[i + 1] == 117 && s[i + 2] == 108 && s[i + 3] == 108 {
                Some(i + 4)
            } else {
                None
            }
        } else if b == 116 {
            if i + 3 < s.len() && s[i + 1] == 114 && s[i + 2] == 117 && s[i + 3] == 101 {
                Some(i + 4)
            } else {
                None
            }
        } else if b == 102 {
            if i + 4 < s.len() && s[i + 1] == 97 && s[i + 2] == 108 && s[i + 3] == 115 && s[i + 4]
                == 101 {
                Some(i + 5)
            } else {
                None
            }
        } else if b == 34 {
            match scan_string_body(s, i + 1) {
                Some((c, e)) => Some(e),
                None => None,
            }
        } else if is_digit(b) {
            match spec_parse_number(s, i) {
                Some((n, j)) => Some(j),
                None => None,
            }
        } else if b == 91 {
            if i + 1 < s.len() && s[i + 1] == 93 {
                Some(i + 2)
            } else {
                skip_array_rest(s, i + 1)
            }
        } else if b == 123 {
            if i + 1 < s.len() && s[i + 1] == 125 {
                Some(i + 2)
            } else {
                skip_object_rest(s, i + 1)
            }
        } else {
            None
        }
    }
}

/// The elements of a non-empty array, from the first element to the closing
/// bracket.
pub open spec fn skip_array_rest(s: Seq<u8>, i: int) -> Option<int>
    decreases s.len() - i, 1int,
{
    match skip_value(s, i) {
        Some(j) => if j <= i {
            None
        } else if j < s.len() && s[j] == 44 {
            skip_array_rest(s, j + 1)
        } else if j < s.len() && s[j] == 93 {
            Some(j + 1)
        } else {
            None
        },
        None => None,
    }
}

/// The members of a non-empty object, from the first key to the closing
/// brace.
pub open spec fn skip_object_rest(s: Seq<u8>, i: int) -> Option<int>
    decreases s.len() - i, 1int,
{
    if i >= s.len() || s[i] != 34 {
        None
    } else {
        match scan_string_body(s, i + 1) {
            Some((key, k)) => if k < i || k >= s.len() || s[k] != 58 {
                None
            } else {
                match skip_value(s, k + 1) {
                    Some(j) => if j <= k {
                        None
                    } else if j < s.len() && s[j] == 44 {
                        skip_object_rest(s, j + 1)
                    } else if j < s.len() && s[j] == 125 {
                        Some(j + 1)
                    } else {
                        None
                    },
                    None => None,
                }
            },
            None => None,
        }
    }
}

fn skip_value_exec(s: &[u8], i: usize) -> (r: Option<usize>)
    requires
        i <= s@.len(),
    ensures
        (match (r, skip_value(s@, i as int)) {
            (Some(j), Some(e)) => j as int == e && j <= s@.len(),
            (None, None) => true,
            _ => false,
        }),
    decreases s@.len() - i, 0int,
{
    if i >= s.len() {
        return None;
    }
    let b = s[i];
    if b == 110 {
        if s.len() - i > 3 && s[i + 1] == 117 && s[i + 2] == 108 && s[i + 3] == 108 {
            Some(i + 4)
        } else {
            None
        }
    } else if b == 116 {
        if s.len() - i > 3 && s[i + 1] == 114 && s[i + 2] == 117 && s[i + 3] == 101 {
            Some(i + 4)
        } else {
            None
        }
    } else if b == 102 {
        if s.len() - i > 4 && s[i + 1] == 97 && s[i + 2] == 108 && s[i + 3] == 115 && s[i + 4]
            == 101 {
            Some(i + 5)
        } else {
            None
        }
    } else if b == 34 {
        let mut scratch: Vec<u8> = Vec::new();
        match scan_string(s, i + 1, &mut scratch) {
            Some(e) => {
                proof {
                    lemma_scan_string_end(s@, i + 1 as int);
                }
                Some(e)
            },
            None => None,
        }
    } else if b >= 48 && b <= 57 {
        match parse_number(s, i) {
            Some((n, j)) => {
                proof {
                    lemma_digit_run_range(s@, i as int);
                }
                Some(j)
            },
            None => None,
        }
    } else if b == 91 {
        if i + 1 < s.len() && s[i + 1] == 93 {
            Some(i + 2)
        } else {
            skip_array_rest_exec(s, i + 1)
        }
    } else if b == 123 {
        if i + 1 < s.len() && s[i + 1] == 125 {
            Some(i + 2)
        } else {
            skip_object_rest_exec(s, i + 1)
        }
    } else {
        None
    }
}

fn skip_array_rest_exec(s: &[u8], i: usize) -> (r: Option<usize>)
    requires
        i <= s@.len(),
    ensures
        (match (r, skip_array_rest(s@, i as int)) {
            (Some(j), Some(e)) => j as int == e && j <= s@.len(),
            (None, None) => true,
            _ => false,
        }),
    decreases s@.len() - i, 1int,
{
    match skip_value_exec(s, i) {
        Some(j) => {
            if j <= i {
                None
            } else if j < s.len() && s[j] == 44 {
                skip_array_rest_exec(s, j + 1)
            } else if j < s.len() && s[j] == 93 {
                Some(j + 1)
            } else {
                None
            }
        },
        None => None,
    }
}

fn skip_object_rest_exec(s: &[u8], i: usize) -> (r: Option<usize>)
    requires
        i <= s@.len(),
    ensures
        (match (r, skip_object_rest(s@, i as int)) {
            (Some(j), Some(e)) => j as int == e && j <= s@.len(),
            (None, None) => true,
            _ => false,
        }),
    decreases s@.len() - i, 1int,
{
    if i >= s.len() || s[i] != 34 {
        return None;
    }
    let mut scratch: Vec<u8> = Vec::new();
    match scan_string(s, i + 1, &mut scratch) {
        Some(k) => {
            proof {
                lemma_scan_string_end(s@, i + 1 as int);
            }
            if k < i || k >= s.len() || s[k] != 58 {
                None
            } else {
                match skip_value_exec(s, k + 1) {
                    Some(j) => {
                        if j <= k {
                            None
                        } else if j < s.len() && s[j] == 44 {
                            skip_object_rest_exec(s, j + 1)
                        } else if j < s.len() && s[j] == 125 {
                            Some(j + 1)
                        } else {
                            None
                        }
                    },
                    None => None,
                }
            }
        },
        None => None,
    }
}

// ---------------------------------------------------------------------------
// Keywords of the wire schema
// ---------------------------------------------------------------------------

pub open spec fn kw_id() -> Seq<u8> {
    seq!['i' as u8, 'd' as u8]
}

pub open spec fn kw_index() -> Seq<u8> {
    seq!['i' as u8, 'n' as u8, 'd' as u8, 'e' as u8, 'x' as u8]
}

pub open spec fn kw_name() -> Seq<u8> {
    seq!['n' as u8, 'a' as u8, 'm' as u8, 'e' as u8]
}

pub open spec fn kw_is_focused() -> Seq<u8> {
    seq![
        'i' as u8,
        's' as u8,
        '_' as u8,
        'f' as u8,
        'o' as u8,
        'c' as u8,
        'u' as u8,
        's' as u8,
        'e' as u8,
        'd' as u8,
    ]
}

pub open spec fn kw_focused() -> Seq<u8> {
    seq!['f' as u8, 'o' as u8, 'c' as u8, 'u' as u8, 's' as u8, 'e' as u8, 'd' as u8]
}

pub open spec fn kw_workspaces() -> Seq<u8> {
    seq![
        'w' as u8,
        'o' as u8,
        'r' as u8,
        'k' as u8,
        's' as u8,
        'p' as u8,
        'a' as u8,
        'c' as u8,
        'e' as u8,
        's' as u8,
    ]
}

pub open spec fn kw_workspaces_changed() -> Seq<u8> {
    seq![
        'W' as u8,
        'o' as u8,
        'r' as u8,
        'k' as u8,
        's' as u8,
        'p' as u8,
        'a' as u8,
        'c' as u8,
        'e' as u8,
        's' as u8,
        'C' as u8,
        'h' as u8,
        'a' as u8,
        'n' as u8,
        'g' as u8,
        'e' as u8,
        'd' as u8,
    ]
}

pub open spec fn kw_workspace_activated() -> Seq<u8> {
    seq![
        'W' as u8,
        'o' as u8,
        'r' as u8,
        'k' as u8,
        's' as u8,
        'p' as u8,
        'a' as u8,
        'c' as u8,
        'e' as u8,
        'A' as u8,
        'c' as u8,
        't' as u8,
        'i' as u8,
        'v' as u8,
        'a' as u8,
        't' as u8,
        'e' as u8,
        'd' as u8,
    ]
}

pub open spec fn kw_ok() -> Seq<u8> {
    seq!['O' as u8, 'k' as u8]
}

pub open spec fn kw_err() -> Seq<u8> {
    seq!['E' as u8, 'r' as u8, 'r' as u8]
}

pub open spec fn kw_handled() -> Seq<u8> {
    seq!['H' as u8, 'a' as u8, 'n' as u8, 'd' as u8, 'l' as u8, 'e' as u8, 'd' as u8]
}

pub open spec fn kw_workspaces_cap() -> Seq<u8> {
    seq![
        'W' as u8,
        'o' as u8,
        'r' as u8,
        'k' as u8,
        's' as u8,
        'p' as u8,
        'a' as u8,
        'c' as u8,
        'e' as u8,
        's' as u8,
    ]
}

fn is_kw_id(v: &[u8]) -> (r: bool)
    ensures
        r == (v@ == kw_id()),
{
    let r = v.len() == 2 && v[0] == 'i' as u8 && v[1] == 'd' as u8;
    proof {
        if r {
            assert(v@ =~= kw_id());
        } else {
            assert(v@ != kw_id());
        }
    }
    r
}

fn is_kw_index(v: &[u8]) -> (r: bool)
    ensures
        r == (v@ == kw_index()),
{
    let r = v.len() == 5 && v[0] == 'i' as u8 && v[1] == 'n' as u8 && v[2] == 'd' as u8 && v[3]
        == 'e' as u8 && v[4] == 'x' as u8;
    proof {
        if r {
            assert(v@ =~= kw_index());
        } else {
            assert(v@ != kw_index());
        }
    }
    r
}

fn is_kw_name(v: &[u8]) -> (r: bool)
    ensures
        r == (v@ == kw_name()),
{
    let r = v.len() == 4 && v[0] == 'n' as u8 && v[1] == 'a' as u8 && v[2] == 'm' as u8 && v[3]
        == 'e' as u8;
    proof {
        if r {
            assert(v@ =~= kw_name());
        } else {
            assert(v@ != kw_name());
        }
    }
    r
}

fn is_kw_is_focused(v: &[u8]) -> (r: bool)
    ensures
        r == (v@ == kw_is_focused()),
{
    let r = v.len() == 10 && v[0] == 'i' as u8 && v[1] == 's' as u8 && v[2] == '_' as u8 && v[3]
        == 'f' as u8 && v[4] == 'o' as u8 && v[5] == 'c' as u8 && v[6] == 'u' as u8 && v[7]
        == 's' as u8 && v[8] == 'e' as u8 && v[9] == 'd' as u8;
    proof {
        if r {
            assert(v@ =~= kw_is_focused());
        } else {
            assert(v@ != kw_is_focused());
        }
    }
    r
}

fn is_kw_focused(v: &[u8]) -> (r: bool)
    ensures
        r == (v@ == kw_focused()),
{
    let r = v.len() == 7 && v[0] == 'f' as u8 && v[1] == 'o' as u8 && v[2] == 'c' as u8 && v[3]
        == 'u' as u8 && v[4] == 's' as u8 && v[5] == 'e' as u8 && v[6] == 'd' as u8;
    proof {
        if r {
            assert(v@ =~= kw_focused());
        } else {
            assert(v@ != kw_focused());
        }
    }
    r
}

fn is_kw_workspaces(v: &[u8]) -> (r: bool)
    ensures
        r == (v@ == kw_workspaces()),
{
    let r = v.len() == 10 && v[0] == 'w' as u8 && v[1] == 'o' as u8 && v[2] == 'r' as u8 && v[3]
        == 'k' as u8 && v[4] == 's' as u8 && v[5] == 'p' as u8 && v[6] == 'a' as u8 && v[7]
        == 'c' as u8 && v[8] == 'e' as u8 && v[9] == 's' as u8;
    proof {
        if r {
            assert(v@ =~= kw_workspaces());
        } else {
            assert(v@ != kw_workspaces());
        }
    }
    r
}

fn is_kw_workspaces_changed(v: &[u8]) -> (r: bool)
    ensures
        r == (v@ == kw_workspaces_changed()),
{
    let r = v.len() == 17 && v[0] == 'W' as u8 && v[1] == 'o' as u8 && v[2] == 'r' as u8 && v[3]
        == 'k' as u8 && v[4] == 's' as u8 && v[5] == 'p' as u8 && v[6] == 'a' as u8 && v[7]
        == 'c' as u8 && v[8] == 'e' as u8 && v[9] == 's' as u8 && v[10] == 'C' as u8 && v[11]
        == 'h' as u8 && v[12] == 'a' as u8 && v[13] == 'n' as u8 && v[14] == 'g' as u8 && v[15]
        == 'e' as u8 && v[16] == 'd' as u8;
    proof {
        if r {
            assert(v@ =~= kw_workspaces_changed());
        } else {
            assert(v@ != kw_workspaces_changed());
        }
    }
    r
}

fn is_kw_workspace_activated(v: &[u8]) -> (r: bool)
    ensures
        r == (v@ == kw_workspace_activated()),
{
    let r = v.len() == 18 && v[0] == 'W' as u8 && v[1] == 'o' as u8 && v[2] == 'r' as u8 && v[3]
        == 'k' as u8 && v[4] == 's' as u8 && v[5] == 'p' as u8 && v[6] == 'a' as u8 && v[7]
        == 'c' as u8 && v[8] == 'e' as u8 && v[9] == 'A' as u8 && v[10] == 'c' as u8 && v[11]
        == 't' as u8 && v[12] == 'i' as u8 && v[13] == 'v' as u8 && v[14] == 'a' as u8 && v[15]
        == 't' as u8 && v[16] == 'e' as u8 && v[17] == 'd' as u8;
    proof {
        if r {
            assert(v@ =~= kw_workspace_activated());
        } else {
            assert(v@ != kw_workspace_activated());
        }
    }
    r
}

fn is_kw_ok(v: &[u8]) -> (r: bool)
    ensures
        r == (v@ == kw_ok()),
{
    let r = v.len() == 2 && v[0] == 'O' as u8 && v[1] == 'k' as u8;
    proof {
        if r {
            assert(v@ =~= kw_ok());
        } else {
            assert(v@ != kw_ok());
        }
    }
    r
}

fn is_kw_err(v: &[u8]) -> (r: bool)
    ensures
        r == (v@ == kw_err()),
{
    let r = v.len() == 3 && v[0] == 'E' as u8 && v[1] == 'r' as u8 && v[2] == 'r' as u8;
    proof {
        if r {
            assert(v@ =~= kw_err());
        } else {
            assert(v@ != kw_err());
        }
    }
    r
}

fn is_kw_handled(v: &[u8]) -> (r: bool)
    ensures
        r == (v@ == kw_handled()),
{
    let r = v.len() == 7 && v[0] == 'H' as u8 && v[1] == 'a' as u8 && v[2] == 'n' as u8 && v[3]
        == 'd' as u8 && v[4] == 'l' as u8 && v[5] == 'e' as u8 && v[6] == 'd' as u8;
    proof {
        if r {
            assert(v@ =~= kw_handled());
        } else {
            assert(v@ != kw_handled());
        }
    }
    r
}

fn is_kw_workspaces_cap(v: &[u8]) -> (r: bool)
    ensures
        r == (v@ == kw_workspaces_cap()),
{
    let r = v.len() == 10 && v[0] == 'W' as u8 && v[1] == 'o' as u8 && v[2] == 'r' as u8 && v[3]
        == 'k' as u8 && v[4] == 's' as u8 && v[5] == 'p' as u8 && v[6] == 'a' as u8 && v[7]
        == 'c' as u8 && v[8] == 'e' as u8 && v[9] == 's' as u8;
    proof {
        if r {
            assert(v@ =~= kw_workspaces_cap());
        } else {
            assert(v@ != kw_workspaces_cap());
        }
    }
    r
}

/// A string body ends within the line and past its start.
proof fn lemma_scan_string_end(s: Seq<u8>, i: int)
    requires
        0 <= i,
    ensures
        (match scan_string_body(s, i) {
            Some((c, e)) => i < e <= s.len(),
            None => true,
        }),
    decreases s.len() - i,
{
    if i < s.len() {
        if s[i] == 92 {
            if i + 1 < s.len() && (s[i + 1] == 34 || s[i + 1] == 92) {
                lemma_scan_string_end(s, i + 2);
            }
        } else if s[i] != 34 && s[i] >= 32 {
            lemma_scan_string_end(s, i + 1);
        }
    }
}


// ---------------------------------------------------------------------------
// Message shapes
// ---------------------------------------------------------------------------

/// Byte `b` stands at position `i` of `s`.
pub open spec fn lit_at(s: Seq<u8>, i: int, b: u8) -> bool {
    0 <= i < s.len() && s[i] == b
}

/// A `true` or `false` literal.
pub open spec fn parse_bool(s: Seq<u8>, i: int) -> Option<(bool, int)> {
    if i + 3 < s.len() && s[i] == 't' as u8 && s[i + 1] == 'r' as u8 && s[i + 2] == 'u' as u8
        && s[i + 3] == 'e' as u8 {
        Some((true, i + 4))
    } else if i + 4 < s.len() && s[i] == 'f' as u8 && s[i + 1] == 'a' as u8 && s[i + 2]
        == 'l' as u8 && s[i + 3] == 's' as u8 && s[i + 4] == 'e' as u8 {
        Some((false, i + 5))
    } else {
        None
    }
}

/// A `null` literal or a string: an optional display name.
pub open spec fn parse_opt_string(s: Seq<u8>, i: int) -> Option<(Option<Seq<u8>>, int)> {
    if i + 3 < s.len() && s[i] == 'n' as u8 && s[i + 1] == 'u' as u8 && s[i + 2] == 'l' as u8
        && s[i + 3] == 'l' as u8 {
        Some((None, i + 4))
    } else if lit_at(s, i, 34) {
        match scan_string_body(s, i + 1) {
            Some((c, e)) => Some((Some(c), e)),
            None => None,
        }
    } else {
        None
    }
}

/// One workspace record of the wire schema:
/// `{"id":N,"index":N,"name":S|null,"is_focused":B}`.
pub open spec fn spec_parse_workspace(s: Seq<u8>, i: int) -> Option<(WsView, int)> {
    if !(lit_at(s, i, 123) && lit_at(s, i + 1, 34)) {
        None
    } else {
        match scan_string_body(s, i + 2) {
            None => None,
            Some((k1, a)) => if k1 != kw_id() || !lit_at(s, a, 58) {
                None
            } else {
                match spec_parse_number(s, a + 1) {
                    None => None,
                    Some((id, b)) => if !(lit_at(s, b, 44) && lit_at(s, b + 1, 34)) {
                        None
                    } else {
                        match scan_string_body(s, b + 2) {
                            None => None,
                            Some((k2, c)) => if k2 != kw_index() || !lit_at(s, c, 58) {
                                None
                            } else {
                                match spec_parse_number(s, c + 1) {
                                    None => None,
                                    Some((idx, d)) => if idx > u32::MAX as u64 || !(lit_at(s, d, 44)
                                        && lit_at(s, d + 1, 34)) {
                                        None
                                    } else {
                                        match scan_string_body(s, d + 2) {
                                            None => None,
                                            Some((k3, e)) => if k3 != kw_name() || !lit_at(s, e, 58) {
                                                None
                                            } else {
                                                match parse_opt_string(s, e + 1) {
                                                    None => None,
                                                    Some((nm, f)) => if !(lit_at(s, f, 44) && lit_at(
                                                        s,
                                                        f + 1,
                                                        34,
                                                    )) {
                                                        None
                                                    } else {
                                                        match scan_string_body(s, f + 2) {
                                                            None => None,
                                                            Some((k4, g)) => if k4 != kw_is_focused()
                                                                || !lit_at(s, g, 58) {
                                                                None
                                                            } else {
                                                                match parse_bool(s, g + 1) {
                                                                    None => None,
                                                                    Some((fo, h)) => if !lit_at(
                                                                        s,
                                                                        h,
                                                                        125,
                                                                    ) {
                                                                        None
                                                                    } else {
                                                                        Some(
                                                                            (
                                                                                WsView {
                                                                                    id,
                                                                                    index: idx as u32,
                                                                                    name: nm,
                                                                                    is_focused: fo,
                                                                                },
                                                                                h + 1,
                                                                            ),
                                                                        )
                                                                    },
                                                                }
                                                            },
                                                        }
                                                    },
                                                }
                                            },
                                        }
                                    },
                                }
                            },
                        }
                    },
                }
            },
        }
    }
}

fn parse_bool_exec(s: &[u8], i: usize) -> (r: Option<(bool, usize)>)
    requires
        i <= s@.len(),
    ensures
        (match (r, parse_bool(s@, i as int)) {
            (Some((x, j)), Some((xv, e))) => x == xv && j as int == e && j <= s@.len(),
            (None, None) => true,
            _ => false,
        }),
{
    if s.len() - i > 3 && s[i] == 't' as u8 && s[i + 1] == 'r' as u8 && s[i + 2] == 'u' as u8
        && s[i + 3] == 'e' as u8 {
        Some((true, i + 4))
    } else if s.len() - i > 4 && s[i] == 'f' as u8 && s[i + 1] == 'a' as u8 && s[i + 2]
        == 'l' as u8 && s[i + 3] == 's' as u8 && s[i + 4] == 'e' as u8 {
        Some((false, i + 5))
    } else {
        None
    }
}

fn parse_opt_string_exec(s: &[u8], i: usize) -> (r: Option<(Option<Vec<u8>>, usize)>)
    requires
        i <= s@.len(),
    ensures
        (match (r, parse_opt_string(s@, i as int)) {
            (Some((x, j)), Some((xv, e))) => j as int == e && j <= s@.len() && (match (x, xv) {
                (Some(v), Some(c)) => v@ == c,
                (None, None) => true,
                _ => false,
            }),
            (None, None) => true,
            _ => false,
        }),
{
    if s.len() - i > 3 && s[i] == 'n' as u8 && s[i + 1] == 'u' as u8 && s[i + 2] == 'l' as u8
        && s[i + 3] == 'l' as u8 {
        Some((None, i + 4))
    } else if i < s.len() && s[i] == 34 {
        let mut content: Vec<u8> = Vec::new();
        match scan_string(s, i + 1, &mut content) {
            Some(e) => {
                proof {
                    lemma_scan_string_end(s@, i + 1 as int);
                }
                Some((Some(content), e))
            },
            None => None,
        }
    } else {
        None
    }
}

#[verifier::rlimit(60)]
fn parse_workspace_exec(s: &[u8], i: usize) -> (r: Option<(Workspace, usize)>)
    requires
        i <= s@.len(),
    ensures
        (match (r, spec_parse_workspace(s@, i as int)) {
            (Some((w, j)), Some((wv, e))) => w@ == wv && j as int == e && j <= s@.len(),
            (None, None) => true,
            _ => false,
        }),
{
    if !(i < s.len() && s[i] == 123 && i + 1 < s.len() && s[i + 1] == 34) {
        return None;
    }
    let mut k1: Vec<u8> = Vec::new();
    let a = match scan_string(s, i + 2, &mut k1) {
        Some(a) => a,
        None => {
            return None;
        },
    };
    proof {
        lemma_scan_string_end(s@, i + 2 as int);
    }
    if !is_kw_id(k1.as_slice()) || !(a < s.len() && s[a] == 58) {
        return None;
    }
    let (id, b) = match parse_number(s, a + 1) {
        Some(x) => x,
        None => {
            return None;
        },
    };
    proof {
        lemma_digit_run_range(s@, a + 1 as int);
    }
    if !(b < s.len() && s[b] == 44 && b + 1 < s.len() && s[b + 1] == 34) {
        return None;
    }
    let mut k2: Vec<u8> = Vec::new();
    let c = match scan_string(s, b + 2, &mut k2) {
        Some(c) => c,
        None => {
            return None;
        },
    };
    proof {
        lemma_scan_string_end(s@, b + 2 as int);
    }
    if !is_kw_index(k2.as_slice()) || !(c < s.len() && s[c] == 58) {
        return None;
    }
    let (idx, d) = match parse_number(s, c + 1) {
        Some(x) => x,
        None => {
            return None;
        },
    };
    proof {
        lemma_digit_run_range(s@, c + 1 as int);
    }
    if idx > u32::MAX as u64 || !(d < s.len() && s[d] == 44 && d + 1 < s.len() && s[d + 1] == 34) {
        return None;
    }
    let mut k3: Vec<u8> = Vec::new();
    let e = match scan_string(s, d + 2, &mut k3) {
        Some(e) => e,
        None => {
            return None;
        },
    };
    proof {
        lemma_scan_string_end(s@, d + 2 as int);
    }
    if !is_kw_name(k3.as_slice()) || !(e < s.len() && s[e] == 58) {
        return None;
    }
    let (nm, f) = match parse_opt_string_exec(s, e + 1) {
        Some(x) => x,
        None => {
            return None;
        },
    };
    if !(f < s.len() && s[f] == 44 && f + 1 < s.len() && s[f + 1] == 34) {
        return None;
    }
    let mut k4: Vec<u8> = Vec::new();
    let g = match scan_string(s, f + 2, &mut k4) {
        Some(g) => g,
        None => {
            return None;
        },
    };
    proof {
        lemma_scan_string_end(s@, f + 2 as int);
    }
    if !is_kw_is_focused(k4.as_slice()) || !(g < s.len() && s[g] == 58) {
        return None;
    }
    let (fo, h) = match parse_bool_exec(s, g + 1) {
        Some(x) => x,
        None => {
            return None;
        },
    };
    if !(h < s.len() && s[h] == 125) {
        return None;
    }
    Some((Workspace { id, index: idx as u32, name: nm, is_focused: fo }, h + 1))
}

/// The elements of a non-empty workspace array, up to its closing bracket.
pub open spec fn spec_parse_ws_items(s: Seq<u8>, i: int) -> Option<(Seq<WsView>, int)>
    decreases s.len() - i,
{
    match spec_parse_workspace(s, i) {
        None => None,
        Some((w, j)) => if j <= i || j >= s.len() {
            None
        } else if s[j] == 44 {
            match spec_parse_ws_items(s, j + 1) {
                Some((ws, e)) => Some((seq![w] + ws, e)),
                None => None,
            }
        } else if s[j] == 93 {
            Some((seq![w], j + 1))
        } else {
            None
        },
    }
}

/// A workspace array: `[]` or `[ws,ws,...]`.
pub open spec fn spec_parse_ws_list(s: Seq<u8>, i: int) -> Option<(Seq<WsView>, int)> {
    if !lit_at(s, i, 91) {
        None
    } else if lit_at(s, i + 1, 93) {
        Some((Seq::empty(), i + 2))
    } else {
        spec_parse_ws_items(s, i + 1)
    }
}

fn parse_ws_items_exec(s: &[u8], i: usize, out: &mut Vec<Workspace>) -> (r: Option<usize>)
    requires
        i <= s@.len(),
    ensures
        (match (r, spec_parse_ws_items(s@, i as int)) {
            (Some(j), Some((ws, e))) => j as int == e && j <= s@.len() && wviews(final(out)@)
                == wviews(old(out)@) + ws,
            (None, None) => true,
            _ => false,
        }),
    decreases s@.len() - i,
{
    let (w, j) = match parse_workspace_exec(s, i) {
        Some(x) => x,
        None => {
            return None;
        },
    };
    if j <= i || j >= s.len() {
        return None;
    }
    if s[j] == 44 {
        out.push(w);
        let ghost mid = out@;
        let r = parse_ws_items_exec(s, j + 1, out);
        proof {
            if let Some((ws, e)) = spec_parse_ws_items(s@, j + 1 as int) {
                if r is Some {
                    assert(wviews(mid) =~= wviews(old(out)@).push(w@));
                    assert(wviews(final(out)@) =~= wviews(old(out)@) + (seq![w@] + ws));
                }
            }
        }
        r
    } else if s[j] == 93 {
        out.push(w);
        proof {
            assert(wviews(final(out)@) =~= wviews(old(out)@) + seq![w@]);
        }
        Some(j + 1)
    } else {
        None
    }
}

fn parse_ws_list_exec(s: &[u8], i: usize, out: &mut Vec<Workspace>) -> (r: Option<usize>)
    requires
        i <= s@.len(),
        old(out)@.len() == 0,
    ensures
        (match (r, spec_parse_ws_list(s@, i as int)) {
            (Some(j), Some((ws, e))) => (j as int == e && j <= s@.len() && wviews(final(out)@)
                == ws),
            (None, None) => true,
            _ => false,
        }),
{
    if !(i < s.len() && s[i] == 91) {
        return None;
    }
    if i + 1 < s.len() && s[i + 1] == 93 {
        proof {
            assert(wviews(out@) =~= Seq::<WsView>::empty());
        }
        return Some(i + 2);
    }
    let r = parse_ws_items_exec(s, i + 1, out);
    proof {
        if let Some((ws, e)) = spec_parse_ws_items(s@, i + 1 as int) {
            if r is Some {
                assert(wviews(old(out)@) =~= Seq::<WsView>::empty());
                assert(wviews(final(out)@) =~= ws);
            }
        }
    }
    r
}


// ---------------------------------------------------------------------------
// Events and replies
// ---------------------------------------------------------------------------

/// A line that could not be decoded, kept whole for diagnostics.
#[derive(Debug, PartialEq, Eq)]
pub struct DecodeError {
    pub line: Vec<u8>,
}

/// The payload of a successful reply, by request kind. Kinds this client
/// never inspects decode as `Other`.
#[derive(Debug, PartialEq, Eq)]
pub enum Response {
    Handled,
    Workspaces(Vec<Workspace>),
    Other,
}

/// Mathematical model of a `Response`.
pub enum RespView {
    Handled,
    Workspaces(Seq<WsView>),
    Other,
}

impl View for Response {
    type V = RespView;

    open spec fn view(&self) -> RespView {
        match self {
            Response::Handled => RespView::Handled,
            Response::Workspaces(l) => RespView::Workspaces(wviews(l@)),
            Response::Other => RespView::Other,
        }
    }
}

/// A reply to one request: success with a payload, or an error message.
#[derive(Debug, PartialEq, Eq)]
pub enum Reply {
    Success(Response),
    Failure(Vec<u8>),
}

/// Mathematical model of a `Reply`.
pub enum ReplyView {
    Success(RespView),
    Failure(Seq<u8>),
}

impl View for Reply {
    type V = ReplyView;

    open spec fn view(&self) -> ReplyView {
        match self {
            Reply::Success(p) => ReplyView::Success(p@),
            Reply::Failure(m) => ReplyView::Failure(m@),
        }
    }
}

/// `s` holds, from `i`, an object whose first key is `kw`:
/// the shape that announces a workspace-list payload.
pub open spec fn has_list_key(s: Seq<u8>, i: int, kw: Seq<u8>) -> bool {
    lit_at(s, i, 123) && lit_at(s, i + 1, 34) && (match scan_string_body(s, i + 2) {
        Some((k, a)) => k == kw && lit_at(s, a, 58),
        None => false,
    })
}

/// An object `{"<kw>":[ws,...]}`, with its closing brace consumed.
pub open spec fn spec_parse_list_payload(s: Seq<u8>, i: int, kw: Seq<u8>) -> Option<
    (Seq<WsView>, int),
> {
    if !(lit_at(s, i, 123) && lit_at(s, i + 1, 34)) {
        None
    } else {
        match scan_string_body(s, i + 2) {
            None => None,
            Some((k, a)) => if k != kw || !lit_at(s, a, 58) {
                None
            } else {
                match spec_parse_ws_list(s, a + 1) {
                    None => None,
                    Some((ws, e)) => if !lit_at(s, e, 125) {
                        None
                    } else {
                        Some((ws, e + 1))
                    },
                }
            },
        }
    }
}

/// An object `{"id":N,"focused":B}`, with its closing brace consumed.
pub open spec fn spec_parse_activated_payload(s: Seq<u8>, i: int) -> Option<(u64, bool, int)> {
    if !(lit_at(s, i, 123) && lit_at(s, i + 1, 34)) {
        None
    } else {
        match scan_string_body(s, i + 2) {
            None => None,
            Some((k, a)) => if k != kw_id() || !lit_at(s, a, 58) {
                None
            } else {
                match spec_parse_number(s, a + 1) {
                    None => None,
                    Some((id, b)) => if !(lit_at(s, b, 44) && lit_at(s, b + 1, 34)) {
                        None
                    } else {
                        match scan_string_body(s, b + 2) {
                            None => None,
                            Some((k2, c)) => if k2 != kw_focused() || !lit_at(s, c, 58) {
                                None
                            } else {
                                match parse_bool(s, c + 1) {
                                    None => None,
                                    Some((fo, g)) => if !lit_at(s, g, 125) {
                                        None
                                    } else {
                                        Some((id, fo, g + 1))
                                    },
                                }
                            },
                        }
                    },
                }
            },
        }
    }
}

/// What one trimmed line of the subscription stream decodes to: a known
/// event, `Other` for a well-formed event of an unknown kind, or nothing
/// when the line is not a well-formed event at all.
pub open spec fn spec_decode_event(s: Seq<u8>) -> Option<EventView> {
    let t = spec_trim(s);
    if t.len() == 0 {
        None
    } else if t[0] == 34 {
        match scan_string_body(t, 1) {
            Some((c, e)) => if e == t.len() {
                Some(EventView::Other)
            } else {
                None
            },
            None => None,
        }
    } else if t[0] == 123 && lit_at(t, 1, 34) {
        match scan_string_body(t, 2) {
            None => None,
            Some((tag, p)) => if !lit_at(t, p, 58) {
                None
            } else if tag == kw_workspaces_changed() {
                match spec_parse_list_payload(t, p + 1, kw_workspaces()) {
                    Some((ws, q)) => if lit_at(t, q, 125) && q + 1 == t.len() {
                        Some(EventView::WorkspacesChanged { workspaces: ws })
                    } else {
                        None
                    },
                    None => None,
                }
            } else if tag == kw_workspace_activated() {
                match spec_parse_activated_payload(t, p + 1) {
                    Some((id, fo, q)) => if lit_at(t, q, 125) && q + 1 == t.len() {
                        Some(EventView::WorkspaceActivated { id, focused: fo })
                    } else {
                        None
                    },
                    None => None,
                }
            } else {
                match skip_value(t, p + 1) {
                    Some(j) => if lit_at(t, j, 125) && j + 1 == t.len() {
                        Some(EventView::Other)
                    } else {
                        None
                    },
                    None => None,
                }
            },
        }
    } else {
        None
    }
}

fn parse_activated_payload_exec(s: &[u8], i: usize) -> (r: Option<(u64, bool, usize)>)
    requires
        i <= s@.len(),
    ensures
        (match (r, spec_parse_activated_payload(s@, i as int)) {
            (Some((id, fo, j)), Some((idv, fov, e))) => (id == idv && fo == fov && j as int == e
                && j <= s@.len()),
            (None, None) => true,
            _ => false,
        }),
{
    if !(i < s.len() && s[i] == 123 && i + 1 < s.len() && s[i + 1] == 34) {
        return None;
    }
    let mut k1: Vec<u8> = Vec::new();
    let a = match scan_string(s, i + 2, &mut k1) {
        Some(a) => a,
        None => {
            return None;
        },
    };
    proof {
        lemma_scan_string_end(s@, i + 2 as int);
    }
    if !is_kw_id(k1.as_slice()) || !(a < s.len() && s[a] == 58) {
        return None;
    }
    let (id, b) = match parse_number(s, a + 1) {
        Some(x) => x,
        None => {
            return None;
        },
    };
    proof {
        lemma_digit_run_range(s@, a + 1 as int);
    }
    if !(b < s.len() && s[b] == 44 && b + 1 < s.len() && s[b + 1] == 34) {
        return None;
    }
    let mut k2: Vec<u8> = Vec::new();
    let c = match scan_string(s, b + 2, &mut k2) {
        Some(c) => c,
        None => {
            return None;
        },
    };
    proof {
        lemma_scan_string_end(s@, b + 2 as int);
    }
    if !is_kw_focused(k2.as_slice()) || !(c < s.len() && s[c] == 58) {
        return None;
    }
    let (fo, g) = match parse_bool_exec(s, c + 1) {
        Some(x) => x,
        None => {
            return None;
        },
    };
    if !(g < s.len() && s[g] == 125) {
        return None;
    }
    Some((id, fo, g + 1))
}

fn fail_line(line: &[u8]) -> (d: DecodeError)
    ensures
        d.line@ == line@,
{
    DecodeError { line: vstd::slice::slice_to_vec(line) }
}

/// Decodes one line of the subscription stream. Unknown event kinds that are
/// well-formed succeed as `Event::Other`; anything else is a `DecodeError`
/// carrying the raw line.
#[verifier::rlimit(60)]
pub fn decode_event(line: &[u8]) -> (r: Result<Event, DecodeError>)
    ensures
        (match r {
            Ok(e) => spec_decode_event(line@) == Some(e@),
            Err(d) => spec_decode_event(line@) is None && d.line@ == line@,
        }),
{
    let t = trim_bytes(line);
    if t.len() == 0 {
        return Err(fail_line(line));
    }
    if t[0] == 34 {
        let mut content: Vec<u8> = Vec::new();
        return match scan_string(t, 1, &mut content) {
            Some(e) => {
                if e == t.len() {
                    Ok(Event::Other)
                } else {
                    Err(fail_line(line))
                }
            },
            None => Err(fail_line(line)),
        };
    }
    if !(t[0] == 123 && 1 < t.len() && t[1] == 34) {
        return Err(fail_line(line));
    }
    let mut tag: Vec<u8> = Vec::new();
    let p = match scan_string(t, 2, &mut tag) {
        Some(p) => p,
        None => {
            return Err(fail_line(line));
        },
    };
    proof {
        lemma_scan_string_end(t@, 2);
    }
    if !(p < t.len() && t[p] == 58) {
        return Err(fail_line(line));
    }
    if is_kw_workspaces_changed(tag.as_slice()) {
        if !(p + 1 < t.len() && t[p + 1] == 123 && p + 2 < t.len() && t[p + 2] == 34) {
            return Err(fail_line(line));
        }
        let mut key: Vec<u8> = Vec::new();
        let a = match scan_string(t, p + 3, &mut key) {
            Some(a) => a,
            None => {
                return Err(fail_line(line));
            },
        };
        proof {
            lemma_scan_string_end(t@, p + 3 as int);
        }
        if !is_kw_workspaces(key.as_slice()) || !(a < t.len() && t[a] == 58) {
            return Err(fail_line(line));
        }
        let mut ws: Vec<Workspace> = Vec::new();
        let e = match parse_ws_list_exec(t, a + 1, &mut ws) {
            Some(e) => e,
            None => {
                return Err(fail_line(line));
            },
        };
        if !(e < t.len() && t[e] == 125) {
            return Err(fail_line(line));
        }
        let q = e + 1;
        if q < t.len() && t[q] == 125 && q + 1 == t.len() {
            Ok(Event::WorkspacesChanged { workspaces: ws })
        } else {
            Err(fail_line(line))
        }
    } else if is_kw_workspace_activated(tag.as_slice()) {
        match parse_activated_payload_exec(t, p + 1) {
            Some((id, fo, q)) => {
                if q < t.len() && t[q] == 125 && q + 1 == t.len() {
                    Ok(Event::WorkspaceActivated { id, focused: fo })
                } else {
                    Err(fail_line(line))
                }
            },
            None => Err(fail_line(line)),
        }
    } else {
        match skip_value_exec(t, p + 1) {
            Some(j) => {
                if j < t.len() && t[j] == 125 && j + 1 == t.len() {
                    Ok(Event::Other)
                } else {
                    Err(fail_line(line))
                }
            },
            None => Err(fail_line(line)),
        }
    }
}

/// What one trimmed reply line decodes to: `{"Ok":payload}` or
/// `{"Err":"message"}`, with payloads this client does not inspect decoding
/// as `Other`.
pub open spec fn spec_decode_reply(s: Seq<u8>) -> Option<ReplyView> {
    let t = spec_trim(s);
    if !(t.len() > 0 && t[0] == 123 && lit_at(t, 1, 34)) {
        None
    } else {
        match scan_string_body(t, 2) {
            None => None,
            Some((tag, p)) => if !lit_at(t, p, 58) {
                None
            } else if tag == kw_ok() {
                let i = p + 1;
                if lit_at(t, i, 34) {
                    match scan_string_body(t, i + 1) {
                        Some((c, e)) => if lit_at(t, e, 125) && e + 1 == t.len() {
                            Some(
                                ReplyView::Success(
                                    if c == kw_handled() {
                                        RespView::Handled
                                    } else {
                                        RespView::Other
                                    },
                                ),
                            )
                        } else {
                            None
                        },
                        None => None,
                    }
                } else if has_list_key(t, i, kw_workspaces_cap()) {
                    match spec_parse_list_payload(t, i, kw_workspaces_cap()) {
                        Some((ws, q)) => if lit_at(t, q, 125) && q + 1 == t.len() {
                            Some(ReplyView::Success(RespView::Workspaces(ws)))
                        } else {
                            None
                        },
                        None => None,
                    }
                } else {
                    match skip_value(t, i) {
                        Some(j) => if lit_at(t, j, 125) && j + 1 == t.len() {
                            Some(ReplyView::Success(RespView::Other))
                        } else {
                            None
                        },
                        None => None,
                    }
                }
            } else if tag == kw_err() {
                if !lit_at(t, p + 1, 34) {
                    None
                } else {
                    match scan_string_body(t, p + 2) {
                        Some((msg, e)) => if lit_at(t, e, 125) && e + 1 == t.len() {
                            Some(ReplyView::Failure(msg))
                        } else {
                            None
                        },
                        None => None,
                    }
                }
            } else {
                None
            },
        }
    }
}

/// Decodes one reply line of the command or subscription path.
#[verifier::rlimit(60)]
pub fn decode_reply(line: &[u8]) -> (r: Result<Reply, DecodeError>)
    ensures
        (match r {
            Ok(rep) => spec_decode_reply(line@) == Some(rep@),
            Err(d) => spec_decode_reply(line@) is None && d.line@ == line@,
        }),
{
    let t = trim_bytes(line);
    if !(t.len() > 0 && t[0] == 123 && 1 < t.len() && t[1] == 34) {
        return Err(fail_line(line));
    }
    let mut tag: Vec<u8> = Vec::new();
    let p = match scan_string(t, 2, &mut tag) {
        Some(p) => p,
        None => {
            return Err(fail_line(line));
        },
    };
    proof {
        lemma_scan_string_end(t@, 2);
    }
    if !(p < t.len() && t[p] == 58) {
        return Err(fail_line(line));
    }
    if is_kw_ok(tag.as_slice()) {
        let i = p + 1;
        if i < t.len() && t[i] == 34 {
            let mut content: Vec<u8> = Vec::new();
            match scan_string(t, i + 1, &mut content) {
                Some(e) => {
                    proof {
                        lemma_scan_string_end(t@, i + 1 as int);
                    }
                    if e < t.len() && t[e] == 125 && e + 1 == t.len() {
                        if is_kw_handled(content.as_slice()) {
                            Ok(Reply::Success(Response::Handled))
                        } else {
                            Ok(Reply::Success(Response::Other))
                        }
                    } else {
                        Err(fail_line(line))
                    }
                },
                None => Err(fail_line(line)),
            }
        } else {
            let mut inner_is_list = false;
            let mut a: usize = 0;
            if i < t.len() && t[i] == 123 && i + 1 < t.len() && t[i + 1] == 34 {
                let mut key: Vec<u8> = Vec::new();
                match scan_string(t, i + 2, &mut key) {
                    Some(a0) => {
                        proof {
                            lemma_scan_string_end(t@, i + 2 as int);
                        }
                        if is_kw_workspaces_cap(key.as_slice()) && a0 < t.len() && t[a0] == 58 {
                            inner_is_list = true;
                            a = a0;
                        }
                    },
                    None => {},
                }
            }
            if inner_is_list {
                let mut ws: Vec<Workspace> = Vec::new();
                let e = match parse_ws_list_exec(t, a + 1, &mut ws) {
                    Some(e) => e,
                    None => {
                        return Err(fail_line(line));
                    },
                };
                if !(e < t.len() && t[e] == 125) {
                    return Err(fail_line(line));
                }
                let q = e + 1;
                if q < t.len() && t[q] == 125 && q + 1 == t.len() {
                    Ok(Reply::Success(Response::Workspaces(ws)))
                } else {
                    Err(fail_line(line))
                }
            } else {
                match skip_value_exec(t, i) {
                    Some(j) => {
                        if j < t.len() && t[j] == 125 && j + 1 == t.len() {
                            Ok(Reply::Success(Response::Other))
                        } else {
                            Err(fail_line(line))
                        }
                    },
                    None => Err(fail_line(line)),
                }
            }
        }
    } else if is_kw_err(tag.as_slice()) {
        if !(p + 1 < t.len() && t[p + 1] == 34) {
            return Err(fail_line(line));
        }
        let mut msg: Vec<u8> = Vec::new();
        match scan_string(t, p + 2, &mut msg) {
            Some(e) => {
                proof {
                    lemma_scan_string_end(t@, p + 2 as int);
                }
                if e < t.len() && t[e] == 125 && e + 1 == t.len() {
                    Ok(Reply::Failure(msg))
                } else {
                    Err(fail_line(line))
                }
            },
            None => Err(fail_line(line)),
        }
    } else {
        Err(fail_line(line))
    }
}


// ---------------------------------------------------------------------------
// Requests
// ---------------------------------------------------------------------------

/// A request this client can issue to the compositor.
#[derive(Clone, Copy, PartialEq, Eq, Structural, Debug)]
pub enum Request {
    EventStream,
    Workspaces,
    FocusWorkspace { id: u64 },
    FocusWorkspaceUp,
    FocusWorkspaceDown,
}

pub open spec fn lit_req_event_stream() -> Seq<u8> {
    seq![
        '"' as u8,
        'E' as u8,
        'v' as u8,
        'e' as u8,
        'n' as u8,
        't' as u8,
        'S' as u8,
        't' as u8,
        'r' as u8,
        'e' as u8,
        'a' as u8,
        'm' as u8,
        '"' as u8,
    ]
}

pub open spec fn lit_req_workspaces() -> Seq<u8> {
    seq![
        '"' as u8,
        'W' as u8,
        'o' as u8,
        'r' as u8,
        'k' as u8,
        's' as u8,
        'p' as u8,
        'a' as u8,
        'c' as u8,
        'e' as u8,
        's' as u8,
        '"' as u8,
    ]
}

pub open spec fn lit_action_open() -> Seq<u8> {
    seq![
        '{' as u8,
        '"' as u8,
        'A' as u8,
        'c' as u8,
        't' as u8,
        'i' as u8,
        'o' as u8,
        'n' as u8,
        '"' as u8,
        ':' as u8,
        '{' as u8,
        '"' as u8,
        'F' as u8,
        'o' as u8,
        'c' as u8,
        'u' as u8,
        's' as u8,
        'W' as u8,
        'o' as u8,
        'r' as u8,
        'k' as u8,
        's' as u8,
        'p' as u8,
        'a' as u8,
        'c' as u8,
        'e' as u8,
    ]
}

/// `{"Action":{"FocusWorkspace":{"id":` — what precedes the digits.
pub open spec fn lit_focus_prefix() -> Seq<u8> {
    lit_action_open() + seq![
        '"' as u8,
        ':' as u8,
        '{' as u8,
        '"' as u8,
        'i' as u8,
        'd' as u8,
        '"' as u8,
        ':' as u8,
    ]
}

/// `}}}` — what follows the digits.
pub open spec fn lit_focus_suffix() -> Seq<u8> {
    seq!['}' as u8, '}' as u8, '}' as u8]
}

/// `{"Action":{"FocusWorkspaceUp":{}}}`
pub open spec fn lit_req_focus_up() -> Seq<u8> {
    lit_action_open() + seq![
        'U' as u8,
        'p' as u8,
        '"' as u8,
        ':' as u8,
        '{' as u8,
        '}' as u8,
        '}' as u8,
        '}' as u8,
    ]
}

/// `{"Action":{"FocusWorkspaceDown":{}}}`
pub open spec fn lit_req_focus_down() -> Seq<u8> {
    lit_action_open() + seq![
        'D' as u8,
        'o' as u8,
        'w' as u8,
        'n' as u8,
        '"' as u8,
        ':' as u8,
        '{' as u8,
        '}' as u8,
        '}' as u8,
        '}' as u8,
    ]
}

/// The canonical single-line encoding of each request: the wire schema shared
/// with the compositor.
pub open spec fn spec_encode_request(q: Request) -> Seq<u8> {
    match q {
        Request::EventStream => lit_req_event_stream(),
        Request::Workspaces => lit_req_workspaces(),
        Request::FocusWorkspace { id } => lit_focus_prefix() + dec_digits(id) + lit_focus_suffix(),
        Request::FocusWorkspaceUp => lit_req_focus_up(),
        Request::FocusWorkspaceDown => lit_req_focus_down(),
    }
}

fn push_byte_seq_event_stream(out: &mut Vec<u8>)
    ensures
        final(out)@ == old(out)@ + lit_req_event_stream(),
{
    out.push('"' as u8);
    out.push('E' as u8);
    out.push('v' as u8);
    out.push('e' as u8);
    out.push('n' as u8);
    out.push('t' as u8);
    out.push('S' as u8);
    out.push('t' as u8);
    out.push('r' as u8);
    out.push('e' as u8);
    out.push('a' as u8);
    out.push('m' as u8);
    out.push('"' as u8);
    proof {
        assert(final(out)@ =~= old(out)@ + lit_req_event_stream());
    }
}

fn push_byte_seq_workspaces(out: &mut Vec<u8>)
    ensures
        final(out)@ == old(out)@ + lit_req_workspaces(),
{
    out.push('"' as u8);
    out.push('W' as u8);
    out.push('o' as u8);
    out.push('r' as u8);
    out.push('k' as u8);
    out.push('s' as u8);
    out.push('p' as u8);
    out.push('a' as u8);
    out.push('c' as u8);
    out.push('e' as u8);
    out.push('s' as u8);
    out.push('"' as u8);
    proof {
        assert(final(out)@ =~= old(out)@ + lit_req_workspaces());
    }
}

fn push_action_open(out: &mut Vec<u8>)
    ensures
        final(out)@ == old(out)@ + lit_action_open(),
{
    out.push('{' as u8);
    out.push('"' as u8);
    out.push('A' as u8);
    out.push('c' as u8);
    out.push('t' as u8);
    out.push('i' as u8);
    out.push('o' as u8);
    out.push('n' as u8);
    out.push('"' as u8);
    out.push(':' as u8);
    out.push('{' as u8);
    out.push('"' as u8);
    out.push('F' as u8);
    out.push('o' as u8);
    out.push('c' as u8);
    out.push('u' as u8);
    out.push('s' as u8);
    out.push('W' as u8);
    out.push('o' as u8);
    out.push('r' as u8);
    out.push('k' as u8);
    out.push('s' as u8);
    out.push('p' as u8);
    out.push('a' as u8);
    out.push('c' as u8);
    out.push('e' as u8);
    proof {
        assert(final(out)@ =~= old(out)@ + lit_action_open());
    }
}

fn push_focus_prefix(out: &mut Vec<u8>)
    ensures
        final(out)@ == old(out)@ + lit_focus_prefix(),
{
    push_action_open(out);
    out.push('"' as u8);
    out.push(':' as u8);
    out.push('{' as u8);
    out.push('"' as u8);
    out.push('i' as u8);
    out.push('d' as u8);
    out.push('"' as u8);
    out.push(':' as u8);
    proof {
        assert(final(out)@ =~= old(out)@ + lit_focus_prefix());
    }
}

fn push_focus_suffix(out: &mut Vec<u8>)
    ensures
        final(out)@ == old(out)@ + lit_focus_suffix(),
{
    out.push('}' as u8);
    out.push('}' as u8);
    out.push('}' as u8);
    proof {
        assert(final(out)@ =~= old(out)@ + lit_focus_suffix());
    }
}

/// Encodes one request as its canonical single-line form, without the
/// trailing newline the transport appends.
pub fn encode_request(q: Request) -> (r: Vec<u8>)
    ensures
        r@ == spec_encode_request(q),
{
    let mut out: Vec<u8> = Vec::new();
    match q {
        Request::EventStream => {
            push_byte_seq_event_stream(&mut out);
        },
        Request::Workspaces => {
            push_byte_seq_workspaces(&mut out);
        },
        Request::FocusWorkspace { id } => {
            push_focus_prefix(&mut out);
            push_decimal(id, &mut out);
            push_focus_suffix(&mut out);
            proof {
                assert(out@ =~= spec_encode_request(q));
            }
        },
        Request::FocusWorkspaceUp => {
            push_action_open(&mut out);
            out.push('U' as u8);
            out.push('p' as u8);
            out.push('"' as u8);
            out.push(':' as u8);
            out.push('{' as u8);
            out.push('}' as u8);
            out.push('}' as u8);
            out.push('}' as u8);
            proof {
                assert(out@ =~= lit_req_focus_up());
            }
        },
        Request::FocusWorkspaceDown => {
            push_action_open(&mut out);
            out.push('D' as u8);
            out.push('o' as u8);
            out.push('w' as u8);
            out.push('n' as u8);
            out.push('"' as u8);
            out.push(':' as u8);
            out.push('{' as u8);
            out.push('}' as u8);
            out.push('}' as u8);
            out.push('}' as u8);
            proof {
                assert(out@ =~= lit_req_focus_down());
            }
        },
    }
    proof {
        assert(out@ =~= spec_encode_request(q));
    }
    out
}

fn bytes_eq(a: &[u8], b: &[u8]) -> (r: bool)
    ensures
        r == (a@ == b@),
{
    if a.len() != b.len() {
        proof {
            assert(a@ != b@);
        }
        return false;
    }
    let mut i: usize = 0;
    while i < a.len()
        invariant
            i <= a@.len(),
            a@.len() == b@.len(),
            forall|k: int| 0 <= k < i ==> a@[k] == b@[k],
        decreases a@.len() - i,
    {
        if a[i] != b[i] {
            proof {
                assert(a@ != b@);
            }
            return false;
        }
        i += 1;
    }
    proof {
        assert(a@ =~= b@);
    }
    true
}

proof fn lemma_digit_run_of_all(s: Seq<u8>, i: int)
    requires
        0 <= i <= s.len(),
        forall|k: int| i <= k < s.len() ==> is_digit(s[k]),
    ensures
        digit_run_end(s, i) == s.len(),
    decreases s.len() - i,
{
    if i < s.len() {
        assert(is_digit(s[i]));
        lemma_digit_run_of_all(s, i + 1);
    }
}

/// The canonical digits of `n` parse back to exactly `n`, consuming them all.
proof fn lemma_parse_of_dec(n: u64)
    ensures
        spec_parse_number(dec_digits(n), 0) == Some((n, dec_digits(n).len() as int)),
{
    let s = dec_digits(n);
    lemma_dec_digits_shape(n);
    lemma_dec_val_of_digits(n);
    lemma_digit_run_of_all(s, 0);
    assert(s.subrange(0, s.len() as int) =~= s);
}

/// Lengths of the encodings, by variant: no two variants share one.
proof fn lemma_encode_request_len(q: Request)
    ensures
        (q is EventStream ==> spec_encode_request(q).len() == 13),
        (q is Workspaces ==> spec_encode_request(q).len() == 12),
        (q is FocusWorkspaceUp ==> spec_encode_request(q).len() == 34),
        (q is FocusWorkspaceDown ==> spec_encode_request(q).len() == 36),
        (q is FocusWorkspace ==> spec_encode_request(q).len() >= 38),
{
    match q {
        Request::FocusWorkspace { id } => {
            lemma_dec_digits_shape(id);
        },
        _ => {},
    }
}

/// Law: no two distinct requests share an encoding, so a decoder that
/// inverts `spec_encode_request` is unambiguous.
pub proof fn lemma_encode_request_injective(q1: Request, q2: Request)
    requires
        spec_encode_request(q1) == spec_encode_request(q2),
    ensures
        q1 == q2,
{
    lemma_encode_request_len(q1);
    lemma_encode_request_len(q2);
    match (q1, q2) {
        (Request::FocusWorkspace { id: a }, Request::FocusWorkspace { id: b }) => {
            let s1 = spec_encode_request(q1);
            let s2 = spec_encode_request(q2);
            lemma_dec_digits_shape(a);
            lemma_dec_digits_shape(b);
            assert(s1.len() == 34 + dec_digits(a).len() + 3);
            assert(s2.len() == 34 + dec_digits(b).len() + 3);
            assert(dec_digits(a) =~= s1.subrange(34, s1.len() - 3));
            assert(dec_digits(b) =~= s2.subrange(34, s2.len() - 3));
            lemma_dec_val_of_digits(a);
            lemma_dec_val_of_digits(b);
            assert(a == b);
        },
        _ => {},
    }
}

/// A line that no request encodes to cannot satisfy the focus pattern.
proof fn lemma_not_focus_encoding(s: Seq<u8>)
    requires
        s.len() < 38 || s.subrange(0, 34) != lit_focus_prefix() || s.subrange(
            s.len() - 3,
            s.len() as int,
        ) != lit_focus_suffix() || (forall|n: u64|
            s.subrange(34, s.len() - 3) != dec_digits(n)),
    ensures
        forall|id: u64| s != spec_encode_request(Request::FocusWorkspace { id }),
{
    assert forall|id: u64| s != spec_encode_request(Request::FocusWorkspace { id }) by {
        if s == spec_encode_request(Request::FocusWorkspace { id }) {
            lemma_dec_digits_shape(id);
            assert(s.len() == 34 + dec_digits(id).len() + 3);
            assert(s.len() >= 38);
            assert(s.subrange(0, 34) =~= lit_focus_prefix());
            assert(s.subrange(s.len() - 3, s.len() as int) =~= lit_focus_suffix());
            assert(s.subrange(34, s.len() - 3) =~= dec_digits(id));
        }
    }
}

/// Decodes a canonical request encoding back to the request. A line that is
/// not the encoding of any request is a `DecodeError`.
#[verifier::rlimit(60)]
pub fn decode_request(s: &[u8]) -> (r: Result<Request, DecodeError>)
    ensures
        (match r {
            Ok(q) => s@ == spec_encode_request(q),
            Err(d) => (forall|q: Request| s@ != spec_encode_request(q)) && d.line@ == s@,
        }),
{
    let mut lit: Vec<u8> = Vec::new();
    push_byte_seq_event_stream(&mut lit);
    if bytes_eq(s, lit.as_slice()) {
        return Ok(Request::EventStream);
    }
    let mut lit2: Vec<u8> = Vec::new();
    push_byte_seq_workspaces(&mut lit2);
    if bytes_eq(s, lit2.as_slice()) {
        return Ok(Request::Workspaces);
    }
    let up = encode_request(Request::FocusWorkspaceUp);
    if bytes_eq(s, up.as_slice()) {
        return Ok(Request::FocusWorkspaceUp);
    }
    let down = encode_request(Request::FocusWorkspaceDown);
    if bytes_eq(s, down.as_slice()) {
        return Ok(Request::FocusWorkspaceDown);
    }
    if s.len() < 38 {
        proof {
            lemma_not_focus_encoding(s@);
        }
        return Err(fail_line(s));
    }
    let mut pre: Vec<u8> = Vec::new();
    push_focus_prefix(&mut pre);
    let head = vstd::slice::slice_subrange(s, 0, 34);
    if !bytes_eq(head, pre.as_slice()) {
        proof {
            lemma_not_focus_encoding(s@);
        }
        return Err(fail_line(s));
    }
    let mut suf: Vec<u8> = Vec::new();
    push_focus_suffix(&mut suf);
    let tail = vstd::slice::slice_subrange(s, s.len() - 3, s.len());
    if !bytes_eq(tail, suf.as_slice()) {
        proof {
            lemma_not_focus_encoding(s@);
        }
        return Err(fail_line(s));
    }
    let mid = vstd::slice::slice_subrange(s, 34, s.len() - 3);
    match parse_number(mid, 0) {
        Some((n, j)) => {
            if j == mid.len() {
                proof {
                    lemma_digit_run_range(mid@, 0);
                    assert(mid@.subrange(0, mid@.len() as int) =~= mid@);
                    lemma_canonical_digits(mid@);
                    assert(s@ =~= lit_focus_prefix() + dec_digits(n) + lit_focus_suffix());
                }
                Ok(Request::FocusWorkspace { id: n })
            } else {
                proof {
                    assert forall|m: u64| s@.subrange(34, s@.len() - 3) != dec_digits(m) by {
                        if mid@ == dec_digits(m) {
                            lemma_parse_of_dec(m);
                        }
                    }
                    lemma_not_focus_encoding(s@);
                }
                Err(fail_line(s))
            }
        },
        None => {
            proof {
                assert forall|m: u64| s@.subrange(34, s@.len() - 3) != dec_digits(m) by {
                    if mid@ == dec_digits(m) {
                        lemma_parse_of_dec(m);
                    }
                }
                lemma_not_focus_encoding(s@);
            }
            Err(fail_line(s))
        },
    }
}


/// Law: every request encodes to a single line — no newline byte ever
/// appears in an encoding, so the transport's newline framing is safe.
pub proof fn lemma_encode_request_single_line(q: Request)
    ensures
        forall|i: int|
            0 <= i < spec_encode_request(q).len() ==> spec_encode_request(q)[i] != 10,
{
    match q {
        Request::FocusWorkspace { id } => {
            lemma_dec_digits_shape(id);
            let s = spec_encode_request(q);
            let d = dec_digits(id);
            assert forall|i: int| 0 <= i < s.len() implies s[i] != 10 by {
                if 34 <= i < 34 + d.len() {
                    assert(s[i] == d[i - 34]);
                    assert(is_digit(d[i - 34]));
                }
            }
        },
        _ => {},
    }
}


/// Law: encoding then decoding is lossless. An encoding exists for every
/// request, and it determines the request: a decoder whose contract returns
/// `Ok` exactly on encodings can only return the request that was encoded.
pub proof fn lemma_request_round_trip(q: Request)
    ensures
        forall|q2: Request| spec_encode_request(q2) == spec_encode_request(q) ==> q2 == q,
{
    assert forall|q2: Request| spec_encode_request(q2) == spec_encode_request(q) implies q2
        == q by {
        lemma_encode_request_injective(q2, q);
    }
}

} // verus!
