//! Verified text helpers shared by the formula pipeline: decimal integer
//! parsing and rendering, single-character pushes, and substring replacement.
use vstd::prelude::*;
use vstd::string::StrSliceExecFns;
use vstd::string::StringExecFns;

verus! {

/// True of the ten ASCII digit characters.
pub open spec fn is_digit_char(c: char) -> bool {
    '0' <= c && c <= '9'
}

/// Numeric value of a digit character.
pub open spec fn digit_val(c: char) -> int {
    c as int - '0' as int
}

/// True when every character of the string is an ASCII digit.
pub open spec fn all_digits(s: Seq<char>) -> bool {
    forall|i: int| 0 <= i < s.len() ==> is_digit_char(s[i])
}

/// Value of a digit string read in base ten.
pub open spec fn digits_val(s: Seq<char>) -> int
    decreases s.len(),
{
    if s.len() == 0 {
        0
    } else {
        digits_val(s.drop_last()) * 10 + digit_val(s.last())
    }
}

/// The integer a token denotes under decimal integer parsing: an optional
/// leading `+` or `-` sign followed by at least one digit, with no other
/// characters; `None` when the token has any other shape.
pub open spec fn dec_int_of(s: Seq<char>) -> Option<int> {
    let signed = s.len() > 0 && (s[0] == '+' || s[0] == '-');
    let body = if signed {
        s.skip(1)
    } else {
        s
    };
    if body.len() > 0 && all_digits(body) {
        if s.len() > 0 && s[0] == '-' {
            Some(-digits_val(body))
        } else {
            Some(digits_val(body))
        }
    } else {
        None
    }
}

/// The value a token parses to as a 32-bit integer: its decimal value when
/// that value fits, `None` otherwise.
pub open spec fn parse_i32_spec(s: Seq<char>) -> Option<int> {
    match dec_int_of(s) {
        Some(v) => if i32::MIN <= v <= i32::MAX {
            Some(v)
        } else {
            None
        },
        None => None,
    }
}

/// Lifts an executable optional 32-bit value to its mathematical image.
pub open spec fn opt_int_of(r: Option<i32>) -> Option<int> {
    match r {
        Some(x) => Some(x as int),
        None => None,
    }
}

proof fn lemma_digits_val_nonneg(s: Seq<char>)
    requires
        all_digits(s),
    ensures
        digits_val(s) >= 0,
    decreases s.len(),
{
    if s.len() > 0 {
        assert(all_digits(s.drop_last())) by {
            assert(forall|i: int| 0 <= i < s.len() - 1 ==> s.drop_last()[i] == s[i]);
        }
        lemma_digits_val_nonneg(s.drop_last());
    }
}

proof fn lemma_digits_val_prefix_le(s: Seq<char>, k: int)
    requires
        all_digits(s),
        0 <= k <= s.len(),
    ensures
        digits_val(s.take(k)) <= digits_val(s),
    decreases s.len() - k,
{
    if k < s.len() {
        let t = s.take(k + 1);
        assert(t.drop_last() =~= s.take(k));
        assert(all_digits(t)) by {
            assert(forall|i: int| 0 <= i < t.len() ==> t[i] == s[i]);
        }
        assert(digits_val(s.take(k)) <= digits_val(t)) by {
            lemma_digits_val_nonneg(t.drop_last());
            assert(digits_val(t) == digits_val(s.take(k)) * 10 + digit_val(t.last()));
            assert(digit_val(t.last()) >= 0);
        }
        lemma_digits_val_prefix_le(s, k + 1);
    } else {
        assert(s.take(k) =~= s);
    }
}

/// Parses the token as a 32-bit decimal integer, returning `None` on any
/// malformed token and on any value out of the 32-bit range.
pub fn parse_i32(s: &str) -> (r: Option<i32>)
    ensures
        opt_int_of(r) == parse_i32_spec(s@),
{
    let len = s.unicode_len();
    let mut start: usize = 0;
    let mut neg = false;
    if len > 0 {
        let c0 = s.get_char(0);
        if c0 == '+' {
            start = 1;
        } else if c0 == '-' {
            neg = true;
            start = 1;
        }
    }
    if start >= len {
        // no digits at all
        return None;
    }
    let ghost body = if start == 1 {
        s@.skip(1)
    } else {
        s@
    };
    assert(body =~= s@.subrange(start as int, len as int));
    let mut mag: u64 = 0;
    let mut j: usize = start;
    while j < len
        invariant
            start <= j <= len,
            all_digits(s@.subrange(start as int, j as int)),
            mag == digits_val(s@.subrange(start as int, j as int)),
            mag <= 0x8000_0000u64,
        decreases len - j,
    {
        let c = s.get_char(j);
        let d = c as u32;
        if d < 48 || d > 57 {
            assert(!is_digit_char(s@[j as int]));
            assert(body[j - start] == s@[j as int]);
            assert(!all_digits(body));
            return None;
        }
        let dv = (d - 48) as u64;
        assert(is_digit_char(s@[j as int]) && dv == digit_val(s@[j as int]));
        let ghost pre = s@.subrange(start as int, j as int);
        let ghost cur = s@.subrange(start as int, j + 1 as int);
        assert(cur.drop_last() =~= pre && cur.last() == s@[j as int]);
        assert(forall|i: int| 0 <= i < cur.len() ==> cur[i] == s@[start + i]);
        mag = mag * 10 + dv;
        j = j + 1;
        if mag > 0x8000_0000u64 {
            // the digits seen so far already exceed the 32-bit range, and
            // further digits can only grow the value
            proof {
                if all_digits(body) {
                    lemma_digits_val_prefix_le(body, j - start);
                    assert(body.take(j - start) =~= s@.subrange(start as int, j as int));
                    assert(digits_val(body) > i32::MAX);
                    assert(-digits_val(body) < i32::MIN);
                }
            }
            return None;
        }
    }
    assert(s@.subrange(start as int, len as int) =~= body);
    assert(dec_int_of(s@) == Some(if neg { -(mag as int) } else { mag as int }));
    if neg {
        let v = -(mag as i64);
        Some(v as i32)
    } else {
        if mag > 0x7FFF_FFFFu64 {
            return None;
        }
        Some(mag as i32)
    }
}

/// The digit character for a value below ten.
pub open spec fn digit_char(n: int) -> char {
    if n == 0 {
        '0'
    } else if n == 1 {
        '1'
    } else if n == 2 {
        '2'
    } else if n == 3 {
        '3'
    } else if n == 4 {
        '4'
    } else if n == 5 {
        '5'
    } else if n == 6 {
        '6'
    } else if n == 7 {
        '7'
    } else if n == 8 {
        '8'
    } else {
        '9'
    }
}

/// Decimal digit string of a nonnegative value, most significant digit first.
pub open spec fn dec_digits(n: nat) -> Seq<char>
    decreases n,
{
    if n < 10 {
        seq![digit_char(n as int)]
    } else {
        dec_digits(n / 10).push(digit_char((n % 10) as int))
    }
}

/// Decimal string of an integer: a `-` sign on negative values, then the
/// digits without leading zeros.
pub open spec fn dec_str_of(v: int) -> Seq<char> {
    if v < 0 {
        seq!['-'] + dec_digits((-v) as nat)
    } else {
        dec_digits(v as nat)
    }
}

/// Relies on String::push: appends the given character at the end of the
/// string; vstd does not specify this std method.
#[verifier::external_body]
pub(crate) fn push_char(s: &mut String, c: char)
    ensures
        final(s)@ == old(s)@.push(c),
{
    s.push(c);
}

/// Builds the one-character string holding the given character.
pub fn char_to_string(c: char) -> (r: String)
    ensures
        r@ == seq![c],
{
    let mut s = String::new();
    push_char(&mut s, c);
    assert(s@ =~= seq![c]);
    s
}

fn digit_to_char(d: u64) -> (c: char)
    requires
        d <= 9,
    ensures
        c == digit_char(d as int),
{
    if d == 0 {
        '0'
    } else if d == 1 {
        '1'
    } else if d == 2 {
        '2'
    } else if d == 3 {
        '3'
    } else if d == 4 {
        '4'
    } else if d == 5 {
        '5'
    } else if d == 6 {
        '6'
    } else if d == 7 {
        '7'
    } else if d == 8 {
        '8'
    } else {
        '9'
    }
}

/// Renders a 32-bit integer as its decimal string.
pub fn i32_to_dec_string(v: i32) -> (r: String)
    ensures
        r@ == dec_str_of(v as int),
{
    let mut mag: u64 = if v >= 0 {
        v as u64
    } else {
        (-(v as i64)) as u64
    };
    let ghost m0 = mag as nat;
    let mut rev: Vec<char> = Vec::new();
    loop
        invariant
            mag as nat <= m0,
            rev@.len() > 0 ==> dec_digits(m0) == dec_digits(mag as nat) + rev@.reverse(),
            rev@.len() == 0 ==> mag as nat == m0,
        decreases mag,
    {
        let d = mag % 10;
        let c = digit_to_char(d);
        let ghost rev_old = rev@;
        rev.push(c);
        assert(rev@.reverse() =~= seq![c] + rev_old.reverse());
        let prev = mag;
        mag = mag / 10;
        proof {
            if prev >= 10 {
                assert(dec_digits(prev as nat) == dec_digits(mag as nat).push(c));
                assert(dec_digits(mag as nat) + rev@.reverse() =~= dec_digits(prev as nat)
                    + rev_old.reverse());
            } else {
                assert(dec_digits(prev as nat) =~= seq![c]);
                assert(dec_digits(prev as nat) + rev_old.reverse() =~= rev@.reverse());
            }
        }
        if mag == 0 {
            break;
        }
    }
    assert(dec_digits(m0) == rev@.reverse());
    let mut out = String::new();
    if v < 0 {
        push_char(&mut out, '-');
    }
    let n = rev.len();
    let mut i: usize = 0;
    while i < n
        invariant
            0 <= i <= n,
            n == rev@.len(),
            out@ == dec_str_of(v as int).take(dec_str_of(v as int).len() - (n - i)),
        decreases n - i,
    {
        let c = rev[n - 1 - i];
        assert(c == rev@.reverse()[i as int]);
        push_char(&mut out, c);
        proof {
            let full = dec_str_of(v as int);
            assert(full.take(full.len() - (n - i - 1)) =~= full.take(full.len() - (n - i)).push(
                full[full.len() - (n - i)],
            ));
            assert(full[full.len() - (n - i)] == rev@.reverse()[i as int]);
        }
        i = i + 1;
    }
    assert(out@ =~= dec_str_of(v as int));
    out
}

/// True of the ASCII whitespace characters trimmed from a formula's ends.
pub open spec fn is_ws_char(c: char) -> bool {
    c == ' ' || c == '\t' || c == '\n' || c == '\r'
}

/// The string without its leading whitespace.
pub open spec fn trim_start(s: Seq<char>) -> Seq<char>
    decreases s.len(),
{
    if s.len() > 0 && is_ws_char(s[0]) {
        trim_start(s.skip(1))
    } else {
        s
    }
}

/// The string without its trailing whitespace.
pub open spec fn trim_end(s: Seq<char>) -> Seq<char>
    decreases s.len(),
{
    if s.len() > 0 && is_ws_char(s.last()) {
        trim_end(s.drop_last())
    } else {
        s
    }
}

/// The string without leading and trailing whitespace.
pub open spec fn trim_spec(s: Seq<char>) -> Seq<char> {
    trim_end(trim_start(s))
}

proof fn lemma_trim_start_at(s: Seq<char>, k: int)
    requires
        0 <= k <= s.len(),
        forall|j: int| 0 <= j < k ==> is_ws_char(s[j]),
        k == s.len() || !is_ws_char(s[k]),
    ensures
        trim_start(s) == s.skip(k),
    decreases k,
{
    if k == 0 {
        assert(s.skip(0) =~= s);
    } else {
        let t = s.skip(1);
        assert(forall|j: int| 0 <= j < k - 1 ==> t[j] == s[j + 1]);
        lemma_trim_start_at(t, k - 1);
        assert(t.skip(k - 1) =~= s.skip(k));
    }
}

proof fn lemma_trim_end_at(s: Seq<char>, h: int)
    requires
        0 <= h <= s.len(),
        forall|j: int| h <= j < s.len() ==> is_ws_char(s[j]),
        h == 0 || !is_ws_char(s[h - 1]),
    ensures
        trim_end(s) == s.take(h),
    decreases s.len() - h,
{
    if h == s.len() {
        assert(s.take(h) =~= s);
        if s.len() > 0 && is_ws_char(s.last()) {
            assert(false);
        }
    } else {
        let t = s.drop_last();
        assert(is_ws_char(s.last()));
        lemma_trim_end_at(t, h);
        assert(t.take(h) =~= s.take(h));
    }
}

/// Returns the string without leading and trailing ASCII whitespace.
pub fn trim_ws<'a>(s: &'a str) -> (r: &'a str)
    ensures
        r@ == trim_spec(s@),
{
    let len = s.unicode_len();
    let mut lo: usize = 0;
    let mut scanning = true;
    while scanning
        invariant
            0 <= lo <= len,
            len == s@.len(),
            forall|j: int| 0 <= j < lo ==> is_ws_char(s@[j]),
            !scanning ==> (lo == len || !is_ws_char(s@[lo as int])),
        decreases (if scanning { 1int } else { 0int }), len - lo,
    {
        if lo >= len {
            scanning = false;
        } else {
            let c = s.get_char(lo);
            if c == ' ' || c == '\t' || c == '\n' || c == '\r' {
                lo = lo + 1;
            } else {
                scanning = false;
            }
        }
    }
    let mut hi: usize = len;
    let mut scanning_end = true;
    while scanning_end
        invariant
            lo <= hi <= len,
            len == s@.len(),
            forall|j: int| 0 <= j < lo ==> is_ws_char(s@[j]),
            lo == len || !is_ws_char(s@[lo as int]),
            forall|j: int| hi <= j < len ==> is_ws_char(s@[j]),
            !scanning_end ==> (hi == lo || !is_ws_char(s@[hi - 1])),
        decreases (if scanning_end { 1int } else { 0int }), hi,
    {
        if hi <= lo {
            scanning_end = false;
        } else {
            let c = s.get_char(hi - 1);
            if c == ' ' || c == '\t' || c == '\n' || c == '\r' {
                hi = hi - 1;
            } else {
                scanning_end = false;
            }
        }
    }
    let r = s.substring_char(lo, hi);
    proof {
        lemma_trim_start_at(s@, lo as int);
        let t = s@.skip(lo as int);
        assert(forall|j: int| hi - lo <= j < t.len() ==> t[j] == s@[j + lo]);
        if hi > lo {
            assert(t[hi - lo - 1] == s@[hi - 1]);
        }
        lemma_trim_end_at(t, hi - lo);
        assert(t.take(hi - lo) =~= s@.subrange(lo as int, hi as int));
    }
    r
}

/// The string with every occurrence of `pat` replaced by `rep`, scanning
/// left to right and never rescanning replaced text.
pub open spec fn replace_seq(s: Seq<char>, pat: Seq<char>, rep: Seq<char>) -> Seq<char>
    decreases s.len(),
    when pat.len() > 0
{
    if s.len() < pat.len() {
        s
    } else if s.take(pat.len() as int) == pat {
        rep + replace_seq(s.skip(pat.len() as int), pat, rep)
    } else {
        seq![s[0]] + replace_seq(s.skip(1), pat, rep)
    }
}

fn str_matches_at(s: &str, i: usize, pat: &str) -> (b: bool)
    requires
        i + pat@.len() <= s@.len(),
    ensures
        b == (s@.subrange(i as int, i + pat@.len()) == pat@),
{
    let plen = pat.unicode_len();
    let slen = s.unicode_len();
    let mut k: usize = 0;
    while k < plen
        invariant
            0 <= k <= plen,
            plen == pat@.len(),
            slen == s@.len(),
            i + plen <= s@.len(),
            forall|m: int| 0 <= m < k ==> s@[i + m] == pat@[m],
        decreases plen - k,
    {
        let sc = s.get_char(i + k);
        let pc = pat.get_char(k);
        if sc != pc {
            assert(s@.subrange(i as int, i + pat@.len())[k as int] != pat@[k as int]);
            return false;
        }
        k = k + 1;
    }
    assert(s@.subrange(i as int, i + pat@.len()) =~= pat@);
    true
}

/// Returns the string with every occurrence of the nonempty pattern replaced
/// by the given replacement, scanning left to right.
pub fn replace_str(s: &str, pat: &str, rep: &str) -> (r: String)
    requires
        pat@.len() > 0,
    ensures
        r@ == replace_seq(s@, pat@, rep@),
{
    let len = s.unicode_len();
    let plen = pat.unicode_len();
    let mut out = String::new();
    let mut i: usize = 0;
    assert(s@.skip(0) =~= s@);
    while i < len
        invariant
            0 <= i <= len,
            len == s@.len(),
            plen == pat@.len(),
            plen > 0,
            replace_seq(s@, pat@, rep@) == out@ + replace_seq(s@.skip(i as int), pat@, rep@),
        decreases len - i,
    {
        let ghost rest = s@.skip(i as int);
        if plen <= len - i && str_matches_at(s, i, pat) {
            assert(rest.take(plen as int) =~= s@.subrange(i as int, i + plen));
            assert(rest.skip(plen as int) =~= s@.skip(i + plen));
            out.append(rep);
            i = i + plen;
        } else {
            proof {
                if i + plen <= len {
                    assert(rest.take(plen as int) =~= s@.subrange(i as int, i + plen));
                } else {
                    assert(rest.len() < plen);
                }
                assert(rest.skip(1) =~= s@.skip(i + 1));
            }
            push_char(&mut out, s.get_char(i));
            assert(out@ =~= (out@.drop_last() + seq![rest[0]]));
            i = i + 1;
        }
    }
    assert(s@.skip(len as int) =~= Seq::<char>::empty());
    assert(replace_seq(Seq::<char>::empty(), pat@, rep@) =~= Seq::<char>::empty());
    assert(out@ =~= replace_seq(s@, pat@, rep@));
    out
}

} // verus!
