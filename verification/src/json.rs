//! Character-level scanners for the JSON subset the exchange feeds use.
//!
//! Every scanner comes in two forms: a `spec` function that defines the
//! grammar over a `Seq<char>`, and an executable twin proved to return
//! exactly what the spec function says. Positions are character indices;
//! a successful scan returns the position just past what it consumed.
//!
//! The subset: objects, arrays, strings without escape sequences, numbers,
//! `true`, `false`, `null`, with blank, tab, newline and carriage-return
//! whitespace. A backslash inside a string is rejected rather than decoded;
//! the feeds never escape the fields this crate reads.

use vstd::prelude::*;

use crate::decimal::all_digits;
use crate::decimal::digits_val;
use crate::decimal::is_digit;
use crate::decimal::lemma_digits_val_nonneg;

verus! {

pub open spec fn is_ws(c: char) -> bool {
    c == ' ' || c == '\t' || c == '\n' || c == '\r'
}

/// Characters that may occur in a number token.
pub open spec fn is_num_char(c: char) -> bool {
    is_digit(c) || c == '-' || c == '+' || c == '.' || c == 'e' || c == 'E'
}

/// First position at or after `i` holding a non-whitespace character.
pub open spec fn spec_skip_ws(s: Seq<char>, i: int) -> int
    decreases s.len() - i,
{
    if 0 <= i < s.len() && is_ws(s[i]) {
        spec_skip_ws(s, i + 1)
    } else {
        i
    }
}

pub fn skip_ws(s: &str, i: usize) -> (r: usize)
    requires
        i <= s@.len(),
    ensures
        r == spec_skip_ws(s@, i as int),
        i <= r <= s@.len(),
{
    let n = s.unicode_len();
    let mut j = i;
    while j < n
        invariant
            i <= j <= n == s@.len(),
            spec_skip_ws(s@, i as int) == spec_skip_ws(s@, j as int),
        decreases n - j,
    {
        let c = s.get_char(j);
        if !(c == ' ' || c == '\t' || c == '\n' || c == '\r') {
            return j;
        }
        j = j + 1;
    }
    j
}

/// Position of the closing quote of a string whose content starts at `j`.
/// Content characters are anything but `"` and `\`.
pub open spec fn spec_str_end(s: Seq<char>, j: int) -> Option<int>
    decreases s.len() - j,
{
    if j < 0 || j >= s.len() {
        None
    } else if s[j] == '"' {
        Some(j)
    } else if s[j] == '\\' {
        None
    } else {
        spec_str_end(s, j + 1)
    }
}

/// Scan a string token at `i`: the decoded content and the position past
/// the closing quote.
pub open spec fn spec_scan_string(s: Seq<char>, i: int) -> Option<(Seq<char>, int)> {
    if 0 <= i < s.len() && s[i] == '"' {
        match spec_str_end(s, i + 1) {
            Some(e) => Some((s.subrange(i + 1, e), e + 1)),
            None => None,
        }
    } else {
        None
    }
}

pub fn scan_string(s: &str, i: usize) -> (r: Option<(String, usize)>)
    requires
        i <= s@.len(),
    ensures
        match r {
            Some((t, e)) => {
                &&& spec_scan_string(s@, i as int) == Some((t@, e as int))
                &&& i < e <= s@.len()
            },
            None => spec_scan_string(s@, i as int) is None,
        },
{
    let n = s.unicode_len();
    if i >= n || s.get_char(i) != '"' {
        return None;
    }
    let mut j = i + 1;
    while j < n
        invariant
            i + 1 <= j <= n == s@.len(),
            i < s@.len() && s@[i as int] == '"',
            spec_str_end(s@, i as int + 1) == spec_str_end(s@, j as int),
            forall|k: int| i + 1 <= k < j ==> s@[k] != '"' && s@[k] != '\\',
        decreases n - j,
    {
        let c = s.get_char(j);
        if c == '"' {
            let t = s.substring_char(i + 1, j).to_owned();
            return Some((t, j + 1));
        }
        if c == '\\' {
            return None;
        }
        j = j + 1;
    }
    None
}

/// End of the number-character run starting at `i`.
pub open spec fn spec_num_end(s: Seq<char>, i: int) -> int
    decreases s.len() - i,
{
    if 0 <= i < s.len() && is_num_char(s[i]) {
        spec_num_end(s, i + 1)
    } else {
        i
    }
}

fn num_end(s: &str, i: usize) -> (r: usize)
    requires
        i <= s@.len(),
    ensures
        r == spec_num_end(s@, i as int),
        i <= r <= s@.len(),
{
    let n = s.unicode_len();
    let mut j = i;
    while j < n
        invariant
            i <= j <= n == s@.len(),
            spec_num_end(s@, i as int) == spec_num_end(s@, j as int),
        decreases n - j,
    {
        let c = s.get_char(j);
        let digit = '0' <= c && c <= '9';
        if !(digit || c == '-' || c == '+' || c == '.' || c == 'e' || c == 'E') {
            return j;
        }
        j = j + 1;
    }
    j
}

/// Scan an unsigned integer: the whole number-character run must be digits
/// and denote a value that fits in a `u64`.
pub open spec fn spec_scan_u64(s: Seq<char>, i: int) -> Option<(u64, int)> {
    let e = spec_num_end(s, i);
    if 0 <= i < e && all_digits(s.subrange(i, e)) && digits_val(s.subrange(i, e)) <= u64::MAX {
        Some((digits_val(s.subrange(i, e)) as u64, e))
    } else {
        None
    }
}

pub fn scan_u64(s: &str, i: usize) -> (r: Option<(u64, usize)>)
    requires
        i <= s@.len(),
    ensures
        match r {
            Some((v, e)) => {
                &&& spec_scan_u64(s@, i as int) == Some((v, e as int))
                &&& i < e <= s@.len()
            },
            None => spec_scan_u64(s@, i as int) is None,
        },
{
    let e = num_end(s, i);
    if e == i {
        return None;
    }
    let ghost run: Seq<char> = s@.subrange(i as int, e as int);
    let mut acc: u128 = 0;
    let mut j = i;
    while j < e
        invariant
            i <= j <= e <= s@.len(),
            e == spec_num_end(s@, i as int),
            run == s@.subrange(i as int, e as int),
            all_digits(run.take(j - i)),
            acc == digits_val(run.take(j - i)),
            acc <= u64::MAX,
        decreases e - j,
    {
        let c = s.get_char(j);
        if c < '0' || c > '9' {
            proof {
                assert(run[j - i] == s@[j as int]);
                assert(!is_digit(run[j - i]));
                assert(!all_digits(run));
            }
            return None;
        }
        proof {
            assert(run[j - i] == s@[j as int]);
            assert(run.take(j - i + 1).drop_last() =~= run.take(j - i));
            lemma_digits_val_nonneg(run.take(j - i));
        }
        let d = (c as u32 - '0' as u32) as u128;
        let next = acc * 10 + d;
        assert(next == digits_val(run.take(j - i + 1)));
        if next > u64::MAX as u128 {
            proof {
                if all_digits(run) {
                    crate::decimal::lemma_digits_val_prefix(run, j - i + 1, run.len() as int);
                    assert(run.take(run.len() as int) =~= run);
                }
            }
            return None;
        }
        acc = next;
        j = j + 1;
    }
    proof {
        assert(run.take(run.len() as int) =~= run);
        assert(run.take(e - i) =~= run);
    }
    Some((acc as u64, e))
}

/// Whether the literal `lit` occurs at position `i` of `s`.
pub open spec fn spec_match_lit(s: Seq<char>, i: int, lit: Seq<char>) -> bool {
    0 <= i && i + lit.len() <= s.len() && s.subrange(i, i + lit.len()) == lit
}

/// End of the JSON value starting (after whitespace) at `i`.
///
/// The impossible-looking guards (`j < i` after a whitespace skip) keep the
/// mutual recursion visibly well-founded; they are never taken.
pub open spec fn spec_skip_value(s: Seq<char>, i: int) -> Option<int>
    decreases s.len() - i, 0int,
{
    let j = spec_skip_ws(s, i);
    if j < i || j >= s.len() {
        None
    } else {
        let c = s[j];
        if c == '"' {
            match spec_scan_string(s, j) {
                Some((t, e)) => Some(e),
                None => None,
            }
        } else if c == '[' {
            spec_skip_array_rest(s, j + 1)
        } else if c == '{' {
            spec_skip_object_rest(s, j + 1)
        } else if is_num_char(c) {
            let e = spec_num_end(s, j);
            if e > j {
                Some(e)
            } else {
                None
            }
        } else if spec_match_lit(s, j, "true"@) {
            Some(j + 4)
        } else if spec_match_lit(s, j, "false"@) {
            Some(j + 5)
        } else if spec_match_lit(s, j, "null"@) {
            Some(j + 4)
        } else {
            None
        }
    }
}

/// End of an array whose `[` stood just before `k`: `]` or entries.
pub open spec fn spec_skip_array_rest(s: Seq<char>, k: int) -> Option<int>
    decreases s.len() - k, 2int,
{
    let w = spec_skip_ws(s, k);
    if w < k || w >= s.len() {
        None
    } else if s[w] == ']' {
        Some(w + 1)
    } else {
        spec_skip_items(s, k)
    }
}

/// One or more array entries from `k`, then `]`.
pub open spec fn spec_skip_items(s: Seq<char>, k: int) -> Option<int>
    decreases s.len() - k, 1int,
{
    match spec_skip_value(s, k) {
        None => None,
        Some(j) => {
            if j <= k || j > s.len() {
                None
            } else {
                let w = spec_skip_ws(s, j);
                if w < j || w >= s.len() {
                    None
                } else if s[w] == ']' {
                    Some(w + 1)
                } else if s[w] == ',' {
                    spec_skip_items(s, w + 1)
                } else {
                    None
                }
            }
        },
    }
}

/// End of an object whose `{` stood just before `k`: `}` or members.
pub open spec fn spec_skip_object_rest(s: Seq<char>, k: int) -> Option<int>
    decreases s.len() - k, 2int,
{
    let w = spec_skip_ws(s, k);
    if w < k || w >= s.len() {
        None
    } else if s[w] == '}' {
        Some(w + 1)
    } else {
        spec_skip_members(s, k)
    }
}

/// One or more `"key": value` members from `k`, then `}`.
pub open spec fn spec_skip_members(s: Seq<char>, k: int) -> Option<int>
    decreases s.len() - k, 1int,
{
    let w = spec_skip_ws(s, k);
    if w < k || w >= s.len() {
        None
    } else {
        match spec_scan_string(s, w) {
            None => None,
            Some((key, j)) => {
                if j <= w || j > s.len() {
                    None
                } else {
                    let w2 = spec_skip_ws(s, j);
                    if w2 < j || w2 >= s.len() || s[w2] != ':' {
                        None
                    } else {
                        match spec_skip_value(s, w2 + 1) {
                            None => None,
                            Some(v) => {
                                if v <= w2 || v > s.len() {
                                    None
                                } else {
                                    let w3 = spec_skip_ws(s, v);
                                    if w3 < v || w3 >= s.len() {
                                        None
                                    } else if s[w3] == '}' {
                                        Some(w3 + 1)
                                    } else if s[w3] == ',' {
                                        spec_skip_members(s, w3 + 1)
                                    } else {
                                        None
                                    }
                                }
                            },
                        }
                    }
                }
            },
        }
    }
}

pub fn match_lit(s: &str, i: usize, lit: &str) -> (b: bool)
    requires
        i <= s@.len(),
    ensures
        b == spec_match_lit(s@, i as int, lit@),
{
    let n = s.unicode_len();
    let m = lit.unicode_len();
    if m > n - i {
        return false;
    }
    let mut k: usize = 0;
    while k < m
        invariant
            0 <= k <= m == lit@.len(),
            i + m <= n == s@.len(),
            forall|q: int| 0 <= q < k ==> s@[i + q] == lit@[q],
        decreases m - k,
    {
        if s.get_char(i + k) != lit.get_char(k) {
            proof {
                assert(s@.subrange(i as int, i + lit@.len())[k as int] != lit@[k as int]);
            }
            return false;
        }
        k = k + 1;
    }
    proof {
        assert(s@.subrange(i as int, i + lit@.len()) =~= lit@);
    }
    true
}

pub fn skip_value(s: &str, i: usize) -> (r: Option<usize>)
    requires
        i <= s@.len(),
    ensures
        match r {
            Some(e) => spec_skip_value(s@, i as int) == Some(e as int) && i < e <= s@.len(),
            None => spec_skip_value(s@, i as int) is None,
        },
    decreases s@.len() - i, 0int,
{
    let n = s.unicode_len();
    let j = skip_ws(s, i);
    if j >= n {
        return None;
    }
    let c = s.get_char(j);
    if c == '"' {
        match scan_string(s, j) {
            Some((t, e)) => Some(e),
            None => None,
        }
    } else if c == '[' {
        skip_array_rest(s, j + 1)
    } else if c == '{' {
        skip_object_rest(s, j + 1)
    } else if ('0' <= c && c <= '9') || c == '-' || c == '+' || c == '.' || c == 'e' || c == 'E' {
        let e = num_end(s, j);
        if e > j {
            Some(e)
        } else {
            None
        }
    } else {
        proof {
            reveal_strlit("true");
            reveal_strlit("false");
            reveal_strlit("null");
        }
        if match_lit(s, j, "true") {
            Some(j + 4)
        } else if match_lit(s, j, "false") {
            Some(j + 5)
        } else if match_lit(s, j, "null") {
            Some(j + 4)
        } else {
            None
        }
    }
}

fn skip_array_rest(s: &str, k: usize) -> (r: Option<usize>)
    requires
        k <= s@.len(),
    ensures
        match r {
            Some(e) => spec_skip_array_rest(s@, k as int) == Some(e as int) && k < e <= s@.len(),
            None => spec_skip_array_rest(s@, k as int) is None,
        },
    decreases s@.len() - k, 2int,
{
    let n = s.unicode_len();
    let w = skip_ws(s, k);
    if w >= n {
        return None;
    }
    if s.get_char(w) == ']' {
        Some(w + 1)
    } else {
        skip_items(s, k)
    }
}

fn skip_items(s: &str, k: usize) -> (r: Option<usize>)
    requires
        k <= s@.len(),
    ensures
        match r {
            Some(e) => spec_skip_items(s@, k as int) == Some(e as int) && k < e <= s@.len(),
            None => spec_skip_items(s@, k as int) is None,
        },
    decreases s@.len() - k, 1int,
{
    let n = s.unicode_len();
    match skip_value(s, k) {
        None => None,
        Some(j) => {
            let w = skip_ws(s, j);
            if w >= n {
                return None;
            }
            let c = s.get_char(w);
            if c == ']' {
                Some(w + 1)
            } else if c == ',' {
                skip_items(s, w + 1)
            } else {
                None
            }
        },
    }
}

fn skip_object_rest(s: &str, k: usize) -> (r: Option<usize>)
    requires
        k <= s@.len(),
    ensures
        match r {
            Some(e) => spec_skip_object_rest(s@, k as int) == Some(e as int) && k < e <= s@.len(),
            None => spec_skip_object_rest(s@, k as int) is None,
        },
    decreases s@.len() - k, 2int,
{
    let n = s.unicode_len();
    let w = skip_ws(s, k);
    if w >= n {
        return None;
    }
    if s.get_char(w) == '}' {
        Some(w + 1)
    } else {
        skip_members(s, k)
    }
}

fn skip_members(s: &str, k: usize) -> (r: Option<usize>)
    requires
        k <= s@.len(),
    ensures
        match r {
            Some(e) => spec_skip_members(s@, k as int) == Some(e as int) && k < e <= s@.len(),
            None => spec_skip_members(s@, k as int) is None,
        },
    decreases s@.len() - k, 1int,
{
    let n = s.unicode_len();
    let w = skip_ws(s, k);
    if w >= n {
        return None;
    }
    match scan_string(s, w) {
        None => None,
        Some((key, j)) => {
            let w2 = skip_ws(s, j);
            if w2 >= n || s.get_char(w2) != ':' {
                return None;
            }
            match skip_value(s, w2 + 1) {
                None => None,
                Some(v) => {
                    let w3 = skip_ws(s, v);
                    if w3 >= n {
                        return None;
                    }
                    let c = s.get_char(w3);
                    if c == '}' {
                        Some(w3 + 1)
                    } else if c == ',' {
                        skip_members(s, w3 + 1)
                    } else {
                        None
                    }
                },
            }
        },
    }
}

/// Character-wise equality of two string slices.
pub fn str_eq(a: &str, b: &str) -> (r: bool)
    ensures
        r == (a@ == b@),
{
    let n = a.unicode_len();
    let m = b.unicode_len();
    if n != m {
        return false;
    }
    let mut k: usize = 0;
    while k < n
        invariant
            0 <= k <= n == a@.len() && n == m == b@.len(),
            forall|q: int| 0 <= q < k ==> a@[q] == b@[q],
        decreases n - k,
    {
        if a.get_char(k) != b.get_char(k) {
            return false;
        }
        k = k + 1;
    }
    proof {
        assert(a@ =~= b@);
    }
    true
}

/// Position of the value of member `key` in the object whose `{` stands
/// just before `k`: members are walked left to right, nested values are
/// skipped whole, and the first match wins. `None` when the key is absent
/// or a member before it is malformed.
pub open spec fn spec_find_field(s: Seq<char>, k: int, key: Seq<char>) -> Option<int>
    decreases s.len() - k,
{
    let w = spec_skip_ws(s, k);
    if w < k || w >= s.len() {
        None
    } else if s[w] == '}' {
        None
    } else {
        match spec_scan_string(s, w) {
            None => None,
            Some((name, j)) => {
                if j <= w || j > s.len() {
                    None
                } else {
                    let w2 = spec_skip_ws(s, j);
                    if w2 < j || w2 >= s.len() || s[w2] != ':' {
                        None
                    } else if name == key {
                        Some(w2 + 1)
                    } else {
                        match spec_skip_value(s, w2 + 1) {
                            None => None,
                            Some(v) => {
                                if v <= w2 || v > s.len() {
                                    None
                                } else {
                                    let w3 = spec_skip_ws(s, v);
                                    if w3 < v || w3 >= s.len() {
                                        None
                                    } else if s[w3] == ',' {
                                        spec_find_field(s, w3 + 1, key)
                                    } else {
                                        None
                                    }
                                }
                            },
                        }
                    }
                }
            },
        }
    }
}

pub fn find_field(s: &str, k: usize, key: &str) -> (r: Option<usize>)
    requires
        k <= s@.len(),
    ensures
        match r {
            Some(p) => spec_find_field(s@, k as int, key@) == Some(p as int) && k < p <= s@.len(),
            None => spec_find_field(s@, k as int, key@) is None,
        },
{
    let n = s.unicode_len();
    let mut cur = k;
    loop
        invariant
            k <= cur <= n == s@.len(),
            spec_find_field(s@, k as int, key@) == spec_find_field(s@, cur as int, key@),
        decreases s@.len() - cur,
    {
        let w = skip_ws(s, cur);
        if w >= n || s.get_char(w) == '}' {
            return None;
        }
        match scan_string(s, w) {
            None => {
                return None;
            },
            Some((name, j)) => {
                let w2 = skip_ws(s, j);
                if w2 >= n || s.get_char(w2) != ':' {
                    return None;
                }
                if str_eq(name.as_str(), key) {
                    return Some(w2 + 1);
                }
                match skip_value(s, w2 + 1) {
                    None => {
                        return None;
                    },
                    Some(v) => {
                        let w3 = skip_ws(s, v);
                        if w3 >= n || s.get_char(w3) != ',' {
                            return None;
                        }
                        cur = w3 + 1;
                    },
                }
            },
        }
    }
}

/// Entries of a nonempty array of objects, each contributing the string
/// value of its member `key`, from the first entry up to past `]`.
pub open spec fn spec_str_field_list(s: Seq<char>, k: int, key: Seq<char>) -> Option<
    (Seq<Seq<char>>, int),
>
    decreases s.len() - k,
{
    let w = spec_skip_ws(s, k);
    if w < k || w >= s.len() || s[w] != '{' {
        None
    } else {
        match spec_find_field(s, w + 1, key) {
            None => None,
            Some(p) => {
                match spec_scan_string(s, spec_skip_ws(s, p)) {
                    None => None,
                    Some((content, _)) => {
                        match spec_skip_value(s, k) {
                            None => None,
                            Some(j) => {
                                if j <= k || j > s.len() {
                                    None
                                } else {
                                    let w2 = spec_skip_ws(s, j);
                                    if w2 < j || w2 >= s.len() {
                                        None
                                    } else if s[w2] == ']' {
                                        Some((seq![content], w2 + 1))
                                    } else if s[w2] == ',' {
                                        match spec_str_field_list(s, w2 + 1, key) {
                                            None => None,
                                            Some((rest, e)) => Some((seq![content] + rest, e)),
                                        }
                                    } else {
                                        None
                                    }
                                }
                            },
                        }
                    },
                }
            },
        }
    }
}

pub fn str_field_list(s: &str, k: usize, key: &str) -> (r: Option<(Vec<String>, usize)>)
    requires
        k <= s@.len(),
    ensures
        match r {
            Some((v, e)) => {
                &&& spec_str_field_list(s@, k as int, key@) == Some((v.deep_view(), e as int))
                &&& k < e <= s@.len()
            },
            None => spec_str_field_list(s@, k as int, key@) is None,
        },
{
    let n = s.unicode_len();
    let mut acc: Vec<String> = Vec::new();
    let mut cur = k;
    loop
        invariant
            k <= cur <= n == s@.len(),
            match spec_str_field_list(s@, cur as int, key@) {
                Some((rest, e)) => spec_str_field_list(s@, k as int, key@) == Some(
                    (acc.deep_view() + rest, e),
                ),
                None => spec_str_field_list(s@, k as int, key@) is None,
            },
        decreases s@.len() - cur,
    {
        let w = skip_ws(s, cur);
        if w >= n || s.get_char(w) != '{' {
            return None;
        }
        let p = match find_field(s, w + 1, key) {
            None => {
                return None;
            },
            Some(p) => p,
        };
        let pw = skip_ws(s, p);
        let content = match scan_string(s, pw) {
            None => {
                return None;
            },
            Some((content, _)) => content,
        };
        let j = match skip_value(s, cur) {
            None => {
                return None;
            },
            Some(j) => j,
        };
        let w2 = skip_ws(s, j);
        if w2 >= n {
            return None;
        }
        let c = s.get_char(w2);
        if c == ']' {
            let ghost prev = acc.deep_view();
            acc.push(content);
            proof {
                assert(acc.deep_view() =~= prev + seq![content@]);
            }
            return Some((acc, w2 + 1));
        } else if c == ',' {
            let ghost prev = acc.deep_view();
            acc.push(content);
            proof {
                assert(acc.deep_view() =~= prev + seq![content@]);
                if spec_str_field_list(s@, w2 + 1 as int, key@) is Some {
                    let (rest2, e2) = spec_str_field_list(s@, w2 + 1 as int, key@)->Some_0;
                    assert(prev + (seq![content@] + rest2) =~= acc.deep_view() + rest2);
                }
            }
            cur = w2 + 1;
        } else {
            return None;
        }
    }
}

/// A depth entry `["price","quantity"]` at `i`: both strings must be
/// well-formed decimals; the result is their scaled values.
pub open spec fn spec_pair(s: Seq<char>, i: int) -> Option<((u64, u64), int)> {
    let w = spec_skip_ws(s, i);
    if 0 <= w < s.len() && s[w] == '[' {
        match spec_scan_string(s, spec_skip_ws(s, w + 1)) {
            None => None,
            Some((pc, j)) => {
                let w2 = spec_skip_ws(s, j);
                if 0 <= w2 < s.len() && s[w2] == ',' {
                    match spec_scan_string(s, spec_skip_ws(s, w2 + 1)) {
                        None => None,
                        Some((qc, k)) => {
                            let w4 = spec_skip_ws(s, k);
                            if 0 <= w4 < s.len() && s[w4] == ']' {
                                match (crate::decimal::dec_spec(pc), crate::decimal::dec_spec(qc)) {
                                    (Some(pv), Some(qv)) => Some(((pv, qv), w4 + 1)),
                                    _ => None,
                                }
                            } else {
                                None
                            }
                        },
                    }
                } else {
                    None
                }
            },
        }
    } else {
        None
    }
}

pub fn scan_pair(s: &str, i: usize) -> (r: Option<((u64, u64), usize)>)
    requires
        i <= s@.len(),
    ensures
        match r {
            Some((pv, e)) => spec_pair(s@, i as int) == Some((pv, e as int)) && i < e <= s@.len(),
            None => spec_pair(s@, i as int) is None,
        },
{
    let n = s.unicode_len();
    let w = skip_ws(s, i);
    if w >= n || s.get_char(w) != '[' {
        return None;
    }
    let pstart = skip_ws(s, w + 1);
    match scan_string(s, pstart) {
        None => None,
        Some((pc, j)) => {
            let w2 = skip_ws(s, j);
            if w2 >= n || s.get_char(w2) != ',' {
                return None;
            }
            let qstart = skip_ws(s, w2 + 1);
            match scan_string(s, qstart) {
                None => None,
                Some((qc, k)) => {
                    let w4 = skip_ws(s, k);
                    if w4 >= n || s.get_char(w4) != ']' {
                        return None;
                    }
                    let pv = crate::decimal::parse_decimal(pc.as_str());
                    let qv = crate::decimal::parse_decimal(qc.as_str());
                    match (pv, qv) {
                        (Some(p), Some(q)) => Some(((p, q), w4 + 1)),
                        _ => None,
                    }
                },
            }
        },
    }
}

/// Entries of a nonempty pair array, from the first entry up to past `]`.
pub open spec fn spec_pair_list(s: Seq<char>, i: int) -> Option<(Seq<(u64, u64)>, int)>
    decreases s.len() - i,
{
    match spec_pair(s, i) {
        None => None,
        Some((pv, j)) => {
            if j <= i || j > s.len() {
                None
            } else {
                let w = spec_skip_ws(s, j);
                if w < j || w >= s.len() {
                    None
                } else if s[w] == ']' {
                    Some((seq![pv], w + 1))
                } else if s[w] == ',' {
                    match spec_pair_list(s, w + 1) {
                        None => None,
                        Some((rest, e)) => Some((seq![pv] + rest, e)),
                    }
                } else {
                    None
                }
            }
        },
    }
}

/// A whole pair array at `i` (possibly empty): the scaled entries in order.
pub open spec fn spec_pair_array(s: Seq<char>, i: int) -> Option<(Seq<(u64, u64)>, int)> {
    let w = spec_skip_ws(s, i);
    if 0 <= w < s.len() && s[w] == '[' {
        let w1 = spec_skip_ws(s, w + 1);
        if 0 <= w1 < s.len() && s[w1] == ']' {
            Some((Seq::empty(), w1 + 1))
        } else {
            spec_pair_list(s, w + 1)
        }
    } else {
        None
    }
}

pub fn scan_pair_array(s: &str, i: usize) -> (r: Option<(Vec<(u64, u64)>, usize)>)
    requires
        i <= s@.len(),
    ensures
        match r {
            Some((v, e)) => spec_pair_array(s@, i as int) == Some((v@, e as int)) && i < e
                <= s@.len(),
            None => spec_pair_array(s@, i as int) is None,
        },
{
    let n = s.unicode_len();
    let w = skip_ws(s, i);
    if w >= n || s.get_char(w) != '[' {
        return None;
    }
    let w1 = skip_ws(s, w + 1);
    if w1 < n && s.get_char(w1) == ']' {
        let empty: Vec<(u64, u64)> = Vec::new();
        assert(empty@ =~= Seq::<(u64, u64)>::empty());
        return Some((empty, w1 + 1));
    }
    let mut acc: Vec<(u64, u64)> = Vec::new();
    let mut cur: usize = w + 1;
    loop
        invariant
            i <= w && w + 1 <= cur <= s@.len(),
            n == s@.len(),
            spec_pair_array(s@, i as int) == spec_pair_list(s@, w + 1),
            match spec_pair_list(s@, cur as int) {
                Some((rest, e)) => spec_pair_list(s@, w + 1) == Some(
                    (acc@ + rest, e),
                ),
                None => spec_pair_list(s@, w + 1) is None,
            },
        decreases s@.len() - cur,
    {
        match scan_pair(s, cur) {
            None => {
                return None;
            },
            Some((pv, j)) => {
                let w2 = skip_ws(s, j);
                if w2 >= n {
                    return None;
                }
                let c = s.get_char(w2);
                if c == ']' {
                    let ghost prev = acc@;
                    acc.push(pv);
                    proof {
                        assert(spec_pair_list(s@, cur as int) == Some(
                            (seq![pv], w2 + 1 as int),
                        ));
                        assert(prev + seq![pv] =~= acc@);
                    }
                    return Some((acc, w2 + 1));
                } else if c == ',' {
                    let ghost prev = acc@;
                    acc.push(pv);
                    proof {
                        assert(prev + seq![pv] =~= acc@);
                        if spec_pair_list(s@, w2 + 1 as int) is Some {
                            let (rest2, e2) = spec_pair_list(s@, w2 + 1 as int)->Some_0;
                            assert(spec_pair_list(s@, cur as int) == Some(
                                (seq![pv] + rest2, e2),
                            ));
                            assert(prev + (seq![pv] + rest2) =~= acc@ + rest2);
                        }
                    }
                    cur = w2 + 1;
                } else {
                    return None;
                }
            },
        }
    }
}

} // verus!
