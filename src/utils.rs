use vstd::prelude::*;
use vstd::string::StringExecFns;

use crate::types::StorageError;

verus! {

/// The character of a decimal digit.
pub open spec fn digit_char(d: nat) -> char {
    if d == 0 {
        '0'
    } else if d == 1 {
        '1'
    } else if d == 2 {
        '2'
    } else if d == 3 {
        '3'
    } else if d == 4 {
        '4'
    } else if d == 5 {
        '5'
    } else if d == 6 {
        '6'
    } else if d == 7 {
        '7'
    } else if d == 8 {
        '8'
    } else {
        '9'
    }
}

/// The decimal digits of `n`, without leading zeros.
pub open spec fn decimal_of(n: nat) -> Seq<char>
    decreases n,
{
    if n < 10 {
        seq![digit_char(n)]
    } else {
        decimal_of(n / 10).push(digit_char(n % 10))
    }
}

/// The canonical retrieval URL of an asset served by the canister `host`.
pub open spec fn asset_url(host: Seq<char>, asset_id: nat) -> Seq<char> {
    "http://"@ + host + ".localhost:8080/asset/"@ + decimal_of(asset_id)
}

/// The text of one decimal digit.
fn digit_text(d: u128) -> (r: &'static str)
    requires
        d < 10,
    ensures
        r@ == seq![digit_char(d as nat)],
{
    if d == 0 {
        proof {
            reveal_strlit("0");
        }
        "0"
    } else if d == 1 {
        proof {
            reveal_strlit("1");
        }
        "1"
    } else if d == 2 {
        proof {
            reveal_strlit("2");
        }
        "2"
    } else if d == 3 {
        proof {
            reveal_strlit("3");
        }
        "3"
    } else if d == 4 {
        proof {
            reveal_strlit("4");
        }
        "4"
    } else if d == 5 {
        proof {
            reveal_strlit("5");
        }
        "5"
    } else if d == 6 {
        proof {
            reveal_strlit("6");
        }
        "6"
    } else if d == 7 {
        proof {
            reveal_strlit("7");
        }
        "7"
    } else if d == 8 {
        proof {
            reveal_strlit("8");
        }
        "8"
    } else {
        proof {
            reveal_strlit("9");
        }
        "9"
    }
}

/// The decimal digits of `n`, with no sign and no leading zeros.
fn decimal_text(n: u128) -> (r: String)
    ensures
        r@ == decimal_of(n as nat),
    decreases n,
{
    if n < 10 {
        String::from_str(digit_text(n))
    } else {
        let mut text = decimal_text(n / 10);
        text.append(digit_text(n % 10));
        text
    }
}

/// The canonical retrieval URL of asset `asset_id` on the canister whose textual id
/// is `canister_id`.
pub fn generate_url(canister_id: &str, asset_id: u128) -> (url: String)
    ensures
        url@ == asset_url(canister_id@, asset_id as nat),
{
    let mut url = String::from_str("http://");
    url.append(canister_id);
    url.append(".localhost:8080/asset/");
    let digits = decimal_text(asset_id);
    url.append(digits.as_str());
    url
}

/// Whether `c` is white space in the sense of Unicode's `White_Space` property.
pub open spec fn is_white_space(c: char) -> bool {
    let v = c as u32;
    (0x9 <= v && v <= 0xd) || v == 0x20 || v == 0x85 || v == 0xa0 || v == 0x1680 || (0x2000 <= v && v
        <= 0x200a) || v == 0x2028 || v == 0x2029 || v == 0x202f || v == 0x205f || v == 0x3000
}

/// What follows the last `/` (all of `s` when there is none).
pub open spec fn last_segment(s: Seq<char>) -> Seq<char>
    decreases s.len(),
{
    if s.len() == 0 {
        s
    } else if s.last() == '/' {
        Seq::empty()
    } else {
        last_segment(s.drop_last()).push(s.last())
    }
}

/// What precedes the first `?` (all of `s` when there is none).
pub open spec fn before_query(s: Seq<char>) -> Seq<char>
    decreases s.len(),
{
    if s.len() == 0 || !s.contains('?') {
        s
    } else {
        before_query(s.drop_last())
    }
}

/// `s` without its trailing white space.
pub open spec fn trim_end(s: Seq<char>) -> Seq<char>
    decreases s.len(),
{
    if s.len() > 0 && is_white_space(s.last()) {
        trim_end(s.drop_last())
    } else {
        s
    }
}

/// `s` without its leading white space.
pub open spec fn trim_start(s: Seq<char>) -> Seq<char>
    decreases s.len(),
{
    if s.len() > 0 && is_white_space(s[0]) {
        trim_start(s.drop_first())
    } else {
        s
    }
}

pub open spec fn is_digit(c: char) -> bool {
    '0' as u32 <= c as u32 && c as u32 <= '9' as u32
}

/// The number that a sequence of decimal digits writes.
pub open spec fn digits_value(s: Seq<char>) -> nat
    decreases s.len(),
{
    if s.len() == 0 {
        0
    } else {
        digits_value(s.drop_last()) * 10 + ((s.last() as u32 - '0' as u32) as nat)
    }
}

/// The number that `d` writes when it is one or more decimal digits.
pub open spec fn digits_number(d: Seq<char>) -> Option<nat> {
    if d.len() > 0 && (forall|i: int| 0 <= i < d.len() ==> is_digit(#[trigger] d[i])) {
        Some(digits_value(d))
    } else {
        None
    }
}

/// The unsigned number that `s` writes: an optional `+` and at least one decimal digit.
pub open spec fn number_of(s: Seq<char>) -> Option<nat> {
    digits_number(
        if s.len() > 0 && s[0] == '+' {
            s.drop_first()
        } else {
            s
        },
    )
}

/// The asset id that a locator names: its last path segment, before any query,
/// without surrounding white space, read as an unsigned number.
pub open spec fn locator_id(url: Seq<char>) -> Option<nat> {
    number_of(trim_start(trim_end(before_query(last_segment(url)))))
}

proof fn lemma_before_query(t: Seq<char>, j: int)
    requires
        0 <= j < t.len(),
        t[j] == '?',
        forall|k: int| 0 <= k < j ==> t[k] != '?',
    ensures
        before_query(t) == t.subrange(0, j),
    decreases t.len(),
{
    assert(t.contains('?')) by {
        assert(t[j] == '?');
    }
    if t.len() == j + 1 {
        let u = t.drop_last();
        assert(u =~= t.subrange(0, j));
        if u.contains('?') {
            let k = choose|k: int| 0 <= k < u.len() && u[k] == '?';
            assert(t[k] == '?');
        }
        assert(!u.contains('?'));
        assert(before_query(u) == u);
        assert(before_query(t) == before_query(u));
    } else {
        let u = t.drop_last();
        lemma_before_query(u, j);
        assert(u.subrange(0, j) =~= t.subrange(0, j));
    }
}

proof fn lemma_digits_prefix(t: Seq<char>, k: int)
    requires
        0 <= k <= t.len(),
    ensures
        digits_value(t) >= digits_value(t.subrange(0, k)),
    decreases t.len(),
{
    if k < t.len() {
        let u = t.drop_last();
        lemma_digits_prefix(u, k);
        assert(u.subrange(0, k) =~= t.subrange(0, k));
    } else {
        assert(t.subrange(0, k) =~= t);
    }
}

/// The bounds of the locator's last path segment, up to its query.
fn segment_bounds(url: &str) -> (r: (usize, usize))
    ensures
        r.0 <= r.1 <= url@.len(),
        before_query(last_segment(url@)) == url@.subrange(r.0 as int, r.1 as int),
{
    let ghost s = url@;
    let n = url.unicode_len();
    // the last path segment starts after the last '/'
    let mut start: usize = 0;
    let mut i: usize = 0;
    while i < n
        invariant
            n == s.len(),
            s == url@,
            start <= i <= n,
            last_segment(s.subrange(0, i as int)) == s.subrange(start as int, i as int),
        decreases n - i,
    {
        let c = url.get_char(i);
        proof {
            assert(s.subrange(0, i + 1).drop_last() =~= s.subrange(0, i as int));
        }
        if c == '/' {
            start = i + 1;
        }
        i = i + 1;
        assert(last_segment(s.subrange(0, i as int)) =~= s.subrange(start as int, i as int));
    }
    assert(s.subrange(0, n as int) =~= s);
    // the query begins at the first '?'
    let mut end: usize = start;
    while end < n && url.get_char(end) != '?'
        invariant
            n == s.len(),
            s == url@,
            start <= end <= n,
            forall|k: int| start <= k < end ==> s[k] != '?',
        decreases n - end,
    {
        end = end + 1;
    }
    proof {
        let seg = s.subrange(start as int, n as int);
        if end < n {
            lemma_before_query(seg, end - start);
            assert(seg.subrange(0, end - start) =~= s.subrange(start as int, end as int));
        } else {
            assert(seg =~= s.subrange(start as int, end as int));
            if seg.contains('?') {
                let k = choose|k: int| 0 <= k < seg.len() && seg[k] == '?';
                assert(s[start + k] == '?');
            }
        }
    }
    (start, end)
}

/// The bounds of `url[start..end]` without its surrounding white space.
fn trim_bounds(url: &str, start: usize, end: usize) -> (r: (usize, usize))
    requires
        start <= end <= url@.len(),
    ensures
        start <= r.0 <= r.1 <= end,
        trim_start(trim_end(url@.subrange(start as int, end as int))) == url@.subrange(
            r.0 as int,
            r.1 as int,
        ),
{
    let ghost s = url@;
    let n = url.unicode_len();
    // trim white space at both ends
    let mut hi: usize = end;
    while hi > start && is_space(url.get_char(hi - 1))
        invariant
            n == s.len(),
            s == url@,
            start <= hi <= end <= n,
            trim_end(s.subrange(start as int, end as int)) == trim_end(s.subrange(start as int, hi as int)),
        decreases hi,
    {
        assert(s.subrange(start as int, hi as int).drop_last() =~= s.subrange(start as int, hi - 1));
        hi = hi - 1;
    }
    assert(trim_end(s.subrange(start as int, hi as int)) == s.subrange(start as int, hi as int));
    let mut lo: usize = start;
    while lo < hi && is_space(url.get_char(lo))
        invariant
            trim_end(s.subrange(start as int, end as int)) == s.subrange(start as int, hi as int),
            n == s.len(),
            s == url@,
            start <= lo <= hi <= end <= n,
            trim_start(s.subrange(start as int, hi as int)) == trim_start(s.subrange(lo as int, hi as int)),
        decreases hi - lo,
    {
        assert(s.subrange(lo as int, hi as int).drop_first() =~= s.subrange(lo + 1, hi as int));
        lo = lo + 1;
    }
    assert(trim_start(s.subrange(lo as int, hi as int)) == s.subrange(lo as int, hi as int));
    (lo, hi)
}

/// The number written by the decimal digits `url[lo..hi]`, or `MalformedLocator`
/// when they are not one or more digits or the number does not fit in 128 bits.
fn parse_digits(url: &str, lo: usize, hi: usize) -> (r: Result<u128, StorageError>)
    requires
        lo <= hi <= url@.len(),
    ensures
        match digits_number(url@.subrange(lo as int, hi as int)) {
            Some(n) => if n <= u128::MAX {
                r == Ok::<u128, StorageError>(n as u128)
            } else {
                r matches Err(StorageError::MalformedLocator)
            },
            None => r matches Err(StorageError::MalformedLocator),
        },
{
    let ghost s = url@;
    let ghost d = s.subrange(lo as int, hi as int);
    if lo == hi {
        return Err(StorageError::MalformedLocator);
    }
    let mut k: usize = lo;
    while k < hi
        invariant
            s == url@,
            lo <= k <= hi <= s.len(),
            d == s.subrange(lo as int, hi as int),
            forall|j: int| lo <= j < k ==> is_digit(s[j]),
        decreases hi - k,
    {
        let c = url.get_char(k);
        if !(c as u32 >= '0' as u32 && c as u32 <= '9' as u32) {
            assert(d[k - lo] == c);
            return Err(StorageError::MalformedLocator);
        }
        k = k + 1;
    }
    assert forall|j: int| 0 <= j < d.len() implies is_digit(#[trigger] d[j]) by {
        assert(d[j] == s[lo + j]);
    }
    let mut acc: u128 = 0;
    let mut k: usize = lo;
    while k < hi
        invariant
            s == url@,
            lo <= k <= hi <= s.len(),
            d == s.subrange(lo as int, hi as int),
            lo < hi,
            forall|j: int| 0 <= j < d.len() ==> is_digit(#[trigger] d[j]),
            acc as nat == digits_value(s.subrange(lo as int, k as int)),
        decreases hi - k,
    {
        let c = url.get_char(k);
        assert(is_digit(d[k - lo]));
        let v: u32 = c as u32 - '0' as u32;
        let ghost next = s.subrange(lo as int, k + 1);
        assert(next.drop_last() =~= s.subrange(lo as int, k as int));
        assert(next.last() == c);
        assert(digits_value(next) == acc * 10 + v);
        if acc > (u128::MAX - v as u128) / 10 {
            proof {
                assert(acc * 10 + v > u128::MAX) by (nonlinear_arith)
                    requires
                        acc > (u128::MAX - v as u128) / 10,
                        v <= 9,
                ;
                assert(d.subrange(0, k + 1 - lo) =~= next);
                lemma_digits_prefix(d, k + 1 - lo);
            }
            return Err(StorageError::MalformedLocator);
        }
        proof {
            assert(acc * 10 + v <= u128::MAX) by (nonlinear_arith)
                requires
                    acc <= (u128::MAX - v as u128) / 10,
                    v <= 9,
            ;
        }
        acc = acc * 10 + v as u128;
        k = k + 1;
    }
    assert(s.subrange(lo as int, k as int) == d);
    Ok(acc)
}

/// The asset id that `url` names, or `MalformedLocator` when its last path segment
/// (before any query, without surrounding white space) is not an unsigned number
/// that fits in 128 bits.
pub fn get_asset_id(url: &str) -> (r: Result<u128, StorageError>)
    ensures
        match locator_id(url@) {
            Some(n) => if n <= u128::MAX {
                r == Ok::<u128, StorageError>(n as u128)
            } else {
                r matches Err(StorageError::MalformedLocator)
            },
            None => r matches Err(StorageError::MalformedLocator),
        },
{
    let ghost s = url@;
    let (start, end) = segment_bounds(url);
    let (lo, hi) = trim_bounds(url, start, end);
    let ghost t = s.subrange(lo as int, hi as int);
    let mut lo = lo;
    if lo < hi && url.get_char(lo) == '+' {
        lo = lo + 1;
    }
    assert(s.subrange(lo as int, hi as int) =~= if t.len() > 0 && t[0] == '+' {
        t.drop_first()
    } else {
        t
    });
    parse_digits(url, lo, hi)
}

/// Whether `c` is white space.
fn is_space(c: char) -> (r: bool)
    ensures
        r == is_white_space(c),
{
    let v = c as u32;
    (0x9 <= v && v <= 0xd) || v == 0x20 || v == 0x85 || v == 0xa0 || v == 0x1680 || (0x2000 <= v && v
        <= 0x200a) || v == 0x2028 || v == 0x2029 || v == 0x202f || v == 0x205f || v == 0x3000
}

} // verus!
