//! Small text helpers over the chars of strings.

use vstd::prelude::*;

verus! {

/// `String::from_iter` over chars: the string made of exactly those chars,
/// in order.
#[verifier::external_body]
pub(crate) fn string_from_chars(chars: Vec<char>) -> (s: String)
    ensures
        s@ == chars@,
{
    String::from_iter(chars)
}

/// The chars of a string, in order.
pub fn chars_of(s: &str) -> (out: Vec<char>)
    ensures
        out@ == s@,
{
    let mut out: Vec<char> = Vec::new();
    for c in it: s.chars()
        invariant
            out@ == it.seq().take(it.index() as int),
    {
        out.push(c);
    }
    out
}

/// An owned copy of a string.
pub fn owned(s: &str) -> (o: String)
    ensures
        o@ == s@,
{
    String::from_str(s)
}

/// Whether two strings hold the same chars.
pub fn same_text(a: &str, b: &str) -> (r: bool)
    ensures
        r == (a@ == b@),
{
    let x = String::from_str(a);
    let y = String::from_str(b);
    x == y
}

/// `p` occurs in `s` starting at `i`.
pub open spec fn occurs_at(s: Seq<char>, p: Seq<char>, i: int) -> bool {
    0 <= i && i + p.len() <= s.len() && s.subrange(i, i + p.len()) == p
}

/// `p` occurs somewhere in `s`; the empty pattern occurs everywhere.
pub open spec fn contains_text(s: Seq<char>, p: Seq<char>) -> bool {
    exists|i: int| occurs_at(s, p, i)
}

/// Every occurrence of `p` in `s` replaced by `r`, scanning from the left
/// and never overlapping. The empty pattern matches at every char boundary,
/// the two ends included.
pub open spec fn replace_text(s: Seq<char>, p: Seq<char>, r: Seq<char>) -> Seq<char>
    decreases s.len(),
{
    if p.len() == 0 {
        if s.len() == 0 {
            r
        } else {
            r + seq![s[0]] + replace_text(s.drop_first(), p, r)
        }
    } else if s.len() == 0 {
        s
    } else if occurs_at(s, p, 0) {
        r + replace_text(s.subrange(p.len() as int, s.len() as int), p, r)
    } else {
        seq![s[0]] + replace_text(s.drop_first(), p, r)
    }
}

fn occurs_at_exec(s: &Vec<char>, p: &Vec<char>, i: usize) -> (b: bool)
    requires
        i <= s@.len(),
    ensures
        b == occurs_at(s@, p@, i as int),
{
    let n = s.len();
    let m = p.len();
    if m > n - i {
        return false;
    }
    let mut k: usize = 0;
    while k < m
        invariant
            k <= m,
            m == p@.len(),
            n == s@.len(),
            i + m <= n,
            forall|j: int| 0 <= j < k ==> s@[i + j] == p@[j],
        decreases m - k,
    {
        if s[i + k] != p[k] {
            assert(s@.subrange(i as int, i + m)[k as int] != p@[k as int]);
            return false;
        }
        k = k + 1;
    }
    assert(s@.subrange(i as int, i + m) =~= p@);
    true
}

/// Whether `p` occurs in `s`.
pub fn contains_chars(s: &Vec<char>, p: &Vec<char>) -> (b: bool)
    ensures
        b == contains_text(s@, p@),
{
    let n = s.len();
    let mut i: usize = 0;
    while i <= n
        invariant
            i <= n + 1,
            n == s@.len(),
            forall|j: int| 0 <= j < i ==> !occurs_at(s@, p@, j),
        decreases n + 1 - i,
    {
        if occurs_at_exec(s, p, i) {
            return true;
        }
        if i == n {
            assert forall|j: int| occurs_at(s@, p@, j) implies false by {
                assert(j <= n);
            }
            return false;
        }
        i = i + 1;
    }
    false
}

proof fn lemma_replace_step(s: Seq<char>, p: Seq<char>, r: Seq<char>, i: int)
    requires
        p.len() > 0,
        0 <= i < s.len(),
    ensures
        occurs_at(s, p, i) ==> replace_text(s.subrange(i, s.len() as int), p, r) == r
            + replace_text(s.subrange(i + p.len(), s.len() as int), p, r),
        !occurs_at(s, p, i) ==> replace_text(s.subrange(i, s.len() as int), p, r) == seq![s[i]]
            + replace_text(s.subrange(i + 1, s.len() as int), p, r),
{
    let t = s.subrange(i, s.len() as int);
    if occurs_at(s, p, i) {
        assert(t.subrange(0, p.len() as int) =~= s.subrange(i, i + p.len()));
        assert(t.subrange(p.len() as int, t.len() as int) =~= s.subrange(i + p.len(), s.len() as int));
    } else {
        assert(!occurs_at(t, p, 0)) by {
            if occurs_at(t, p, 0) {
                assert(t.subrange(0, p.len() as int) =~= s.subrange(i, i + p.len()));
            }
        }
        assert(t.drop_first() =~= s.subrange(i + 1, s.len() as int));
    }
}

/// `s` with every occurrence of `p` replaced by `r`.
pub fn replace_chars(s: &Vec<char>, p: &Vec<char>, r: &Vec<char>) -> (out: Vec<char>)
    ensures
        out@ == replace_text(s@, p@, r@),
{
    let n = s.len();
    let m = p.len();
    let mut out: Vec<char> = Vec::new();
    let mut i: usize = 0;
    assert(s@.subrange(0, n as int) =~= s@);
    assert(out@ + replace_text(s@, p@, r@) =~= replace_text(s@, p@, r@));
    if m == 0 {
        while i < n
            invariant
                i <= n,
                n == s@.len(),
                p@.len() == 0,
                replace_text(s@, p@, r@) == out@ + replace_text(
                    s@.subrange(i as int, n as int),
                    p@,
                    r@,
                ),
            decreases n - i,
        {
            proof {
                let t = s@.subrange(i as int, n as int);
                assert(t.drop_first() =~= s@.subrange(i + 1, n as int));
                assert(out@ + (r@ + seq![s@[i as int]] + replace_text(t.drop_first(), p@, r@))
                    =~= (out@ + r@ + seq![s@[i as int]]) + replace_text(t.drop_first(), p@, r@));
            }
            out.extend_from_slice(r.as_slice());
            out.push(s[i]);
            i = i + 1;
        }
        proof {
            assert(s@.subrange(n as int, n as int) =~= Seq::<char>::empty());
        }
        out.extend_from_slice(r.as_slice());
        return out;
    }
    while i < n
        invariant
            i <= n,
            n == s@.len(),
            m == p@.len(),
            m > 0,
            replace_text(s@, p@, r@) == out@ + replace_text(s@.subrange(i as int, n as int), p@, r@),
        decreases n - i,
    {
        proof {
            lemma_replace_step(s@, p@, r@, i as int);
        }
        if occurs_at_exec(s, p, i) {
            let ghost before = out@;
            out.extend_from_slice(r.as_slice());
            assert(before + (r@ + replace_text(s@.subrange(i + m, n as int), p@, r@)) =~= out@
                + replace_text(s@.subrange(i + m, n as int), p@, r@));
            i = i + m;
        } else {
            let ghost before = out@;
            out.push(s[i]);
            assert(before + (seq![s@[i as int]] + replace_text(s@.subrange(i + 1, n as int), p@, r@))
                =~= out@ + replace_text(s@.subrange(i + 1, n as int), p@, r@));
            i = i + 1;
        }
    }
    assert(s@.subrange(n as int, n as int) =~= Seq::<char>::empty());
    assert(out@ + Seq::<char>::empty() =~= out@);
    out
}


/// The char of decimal digit `d`.
pub open spec fn digit_char(d: nat) -> char {
    ((48 + d) as u8) as char
}

/// `n` written in decimal, without leading zeros.
pub open spec fn decimal(n: nat) -> Seq<char>
    decreases n,
{
    if n < 10 {
        seq![digit_char(n)]
    } else {
        decimal(n / 10).push(digit_char(n % 10))
    }
}

/// The decimal digits of `n`.
pub fn decimal_chars(n: u64) -> (r: Vec<char>)
    ensures
        r@ == decimal(n as nat),
    decreases n,
{
    let d: u8 = (n % 10) as u8;
    let c = (48u8 + d) as char;
    if n < 10 {
        vec![c]
    } else {
        let mut v = decimal_chars(n / 10);
        v.push(c);
        v
    }
}

/// `char::is_whitespace`: the chars with the Unicode White_Space property.
pub open spec fn is_space(c: char) -> bool {
    let v = c as u32;
    ||| 0x09 <= v <= 0x0D
    ||| v == 0x20
    ||| v == 0x85
    ||| v == 0xA0
    ||| v == 0x1680
    ||| 0x2000 <= v <= 0x200A
    ||| v == 0x2028
    ||| v == 0x2029
    ||| v == 0x202F
    ||| v == 0x205F
    ||| v == 0x3000
}

/// Whether `c` is white space, as `char::is_whitespace` answers.
pub fn char_is_space(c: char) -> (r: bool)
    ensures
        r == is_space(c),
{
    let v = c as u32;
    (0x09 <= v && v <= 0x0D) || v == 0x20 || v == 0x85 || v == 0xA0 || v == 0x1680 || (0x2000 <= v
        && v <= 0x200A) || v == 0x2028 || v == 0x2029 || v == 0x202F || v == 0x205F || v == 0x3000
}

/// The words of `s[..i]` found so far, and the word being read.
pub open spec fn scan_words(s: Seq<char>, i: nat) -> (Seq<Seq<char>>, Seq<char>)
    decreases i,
{
    if i == 0 {
        (Seq::empty(), Seq::empty())
    } else {
        let (done, cur) = scan_words(s, (i - 1) as nat);
        let c = s[i - 1];
        if is_space(c) {
            if cur.len() > 0 {
                (done.push(cur), Seq::empty())
            } else {
                (done, cur)
            }
        } else {
            (done, cur.push(c))
        }
    }
}

/// `str::split_whitespace`: the maximal runs of non-space chars, in order.
pub open spec fn words(s: Seq<char>) -> Seq<Seq<char>> {
    let (done, cur) = scan_words(s, s.len());
    if cur.len() > 0 {
        done.push(cur)
    } else {
        done
    }
}

/// The pieces of `s[..i]` split at `sep` so far, and the piece being read.
pub open spec fn scan_pieces(s: Seq<char>, sep: char, i: nat) -> (Seq<Seq<char>>, Seq<char>)
    decreases i,
{
    if i == 0 {
        (Seq::empty(), Seq::empty())
    } else {
        let (done, cur) = scan_pieces(s, sep, (i - 1) as nat);
        let c = s[i - 1];
        if c == sep {
            (done.push(cur), Seq::empty())
        } else {
            (done, cur.push(c))
        }
    }
}

/// `str::split(sep)`: the pieces between separators, empty ones included.
pub open spec fn pieces(s: Seq<char>, sep: char) -> Seq<Seq<char>> {
    let (done, cur) = scan_pieces(s, sep, s.len());
    done.push(cur)
}

/// `s` begins with `p`.
pub open spec fn starts_with(s: Seq<char>, p: Seq<char>) -> bool {
    p.len() <= s.len() && s.subrange(0, p.len() as int) == p
}

pub open spec fn is_digit(c: char) -> bool {
    '0' <= c <= '9'
}

/// The value of a run of decimal digits.
pub open spec fn digits_value(s: Seq<char>) -> nat
    decreases s.len(),
{
    if s.len() == 0 {
        0
    } else {
        digits_value(s.drop_last()) * 10 + (s.last() as nat - '0' as nat) as nat
    }
}

/// One or more decimal digits whose value fits in `u64`.
pub open spec fn parse_digits(body: Seq<char>) -> Option<u64> {
    if body.len() == 0 || !(forall|i: int| 0 <= i < body.len() ==> is_digit(#[trigger] body[i]))
        || digits_value(body) > u64::MAX {
        None
    } else {
        Some(digits_value(body) as u64)
    }
}

/// `u64::from_str`: an optional `+`, then one or more decimal digits whose
/// value fits in `u64`.
pub open spec fn parse_u64(s: Seq<char>) -> Option<u64> {
    if s.len() > 0 && s[0] == '+' {
        parse_digits(s.drop_first())
    } else {
        parse_digits(s)
    }
}

proof fn lemma_digits_value_grows(s: Seq<char>, k: int)
    requires
        0 <= k <= s.len(),
        forall|i: int| 0 <= i < s.len() ==> is_digit(#[trigger] s[i]),
    ensures
        digits_value(s.subrange(0, k)) <= digits_value(s),
    decreases s.len() - k,
{
    if k < s.len() {
        lemma_digits_value_grows(s, k + 1);
        let t = s.subrange(0, k + 1);
        assert(t.drop_last() =~= s.subrange(0, k));
    } else {
        assert(s.subrange(0, k) =~= s);
    }
}

/// Parse `s[from..]` as `u64::from_str` does.
pub fn parse_u64_chars(s: &Vec<char>, from: usize) -> (r: Option<u64>)
    requires
        from <= s@.len(),
    ensures
        r == parse_u64(s@.subrange(from as int, s@.len() as int)),
{
    let ghost whole = s@.subrange(from as int, s@.len() as int);
    let mut i = from;
    if i < s.len() && s[i] == '+' {
        i = i + 1;
    }
    let ghost body = s@.subrange(i as int, s@.len() as int);
    proof {
        if whole.len() > 0 && whole[0] == '+' {
            assert(body =~= whole.drop_first());
        } else {
            assert(body =~= whole);
        }
    }
    if i == s.len() {
        return None;
    }
    let start = i;
    let mut acc: u64 = 0;
    assert(s@.subrange(start as int, start as int) =~= Seq::<char>::empty());
    while i < s.len()
        invariant
            start <= i <= s@.len(),
            body == s@.subrange(start as int, s@.len() as int),
            parse_u64(s@.subrange(from as int, s@.len() as int)) == parse_digits(body),
            forall|j: int| start <= j < i ==> is_digit(#[trigger] s@[j]),
            acc as nat == digits_value(s@.subrange(start as int, i as int)),
        decreases s@.len() - i,
    {
        let c = s[i];
        if !('0' <= c && c <= '9') {
            proof {
                assert(!is_digit(body[i - start]));
            }
            return None;
        }
        let d = (c as u32 - '0' as u32) as u64;
        let ghost prefix = s@.subrange(start as int, i + 1);
        proof {
            assert(prefix.drop_last() =~= s@.subrange(start as int, i as int));
        }
        proof {
            assert(digits_value(prefix) == acc * 10 + d);
            assert(body.subrange(0, i + 1 - start) =~= prefix);
            if forall|j: int| 0 <= j < body.len() ==> is_digit(#[trigger] body[j]) {
                lemma_digits_value_grows(body, i + 1 - start);
            }
        }
        match acc.checked_mul(10) {
            None => {
                return None;
            },
            Some(t) => match t.checked_add(d) {
                None => {
                    return None;
                },
                Some(v) => {
                    acc = v;
                },
            },
        }
        i = i + 1;
    }
    assert(s@.subrange(start as int, i as int) =~= body);
    Some(acc)
}



/// `s` without its leading white space.
pub open spec fn trim_start(s: Seq<char>) -> Seq<char>
    decreases s.len(),
{
    if s.len() > 0 && is_space(s[0]) {
        trim_start(s.drop_first())
    } else {
        s
    }
}

/// `s` without its trailing white space.
pub open spec fn trim_end(s: Seq<char>) -> Seq<char>
    decreases s.len(),
{
    if s.len() > 0 && is_space(s.last()) {
        trim_end(s.drop_last())
    } else {
        s
    }
}

/// `str::trim`: `s` without white space at either end.
pub open spec fn trim(s: Seq<char>) -> Seq<char> {
    trim_end(trim_start(s))
}

/// The chars `s[from..to]`.
pub fn slice_chars(s: &Vec<char>, from: usize, to: usize) -> (r: Vec<char>)
    requires
        from <= to <= s@.len(),
    ensures
        r@ == s@.subrange(from as int, to as int),
{
    let mut r: Vec<char> = Vec::new();
    let mut i: usize = from;
    while i < to
        invariant
            from <= i <= to,
            to <= s@.len(),
            r@ == s@.subrange(from as int, i as int),
        decreases to - i,
    {
        r.push(s[i]);
        i = i + 1;
    }
    r
}

/// `s[from..to]` without white space at either end.
pub fn trim_chars(s: &Vec<char>, from: usize, to: usize) -> (r: Vec<char>)
    requires
        from <= to <= s@.len(),
    ensures
        r@ == trim(s@.subrange(from as int, to as int)),
{
    let ghost whole = s@.subrange(from as int, to as int);
    let mut i = from;
    while i < to && char_is_space(s[i])
        invariant
            from <= i <= to,
            to <= s@.len(),
            trim_start(whole) == trim_start(s@.subrange(i as int, to as int)),
        decreases to - i,
    {
        assert(s@.subrange(i as int, to as int).drop_first() =~= s@.subrange(i + 1, to as int));
        i = i + 1;
    }
    let ghost mid = s@.subrange(i as int, to as int);
    assert(trim_start(mid) == mid);
    let mut j = to;
    while j > i && char_is_space(s[j - 1])
        invariant
            i <= j <= to,
            to <= s@.len(),
            mid == s@.subrange(i as int, to as int),
            trim_end(mid) == trim_end(s@.subrange(i as int, j as int)),
        decreases j,
    {
        assert(s@.subrange(i as int, j as int).drop_last() =~= s@.subrange(i as int, j - 1));
        j = j - 1;
    }
    assert(trim_end(s@.subrange(i as int, j as int)) == s@.subrange(i as int, j as int));
    slice_chars(s, i, j)
}

/// `char::to_ascii_lowercase`.
pub open spec fn lower(c: char) -> char {
    if 'A' <= c <= 'Z' {
        ((c as u32) + 32) as char
    } else {
        c
    }
}

/// `str::to_ascii_lowercase`.
pub open spec fn lowered(s: Seq<char>) -> Seq<char> {
    s.map_values(|c: char| lower(c))
}

pub fn lower_chars(s: &Vec<char>) -> (r: Vec<char>)
    ensures
        r@ == lowered(s@),
{
    let mut r: Vec<char> = Vec::new();
    let mut i: usize = 0;
    while i < s.len()
        invariant
            i <= s@.len(),
            r@ == lowered(s@.subrange(0, i as int)),
        decreases s@.len() - i,
    {
        let c = s[i];
        let l = if 'A' <= c && c <= 'Z' {
            ((c as u32) + 32) as u8 as char
        } else {
            c
        };
        proof {
            if 'A' <= c && c <= 'Z' {
                assert(((c as u32) + 32) as u8 as char == lower(c));
            }
        }
        r.push(l);
        proof {
            assert(lowered(s@.subrange(0, i + 1)) =~= lowered(s@.subrange(0, i as int)).push(lower(c)));
        }
        i = i + 1;
    }
    assert(s@.subrange(0, s@.len() as int) =~= s@);
    r
}

/// Whether two char sequences are equal.
pub fn chars_eq(a: &Vec<char>, b: &Vec<char>) -> (r: bool)
    ensures
        r == (a@ == b@),
{
    if a.len() != b.len() {
        return false;
    }
    let mut i: usize = 0;
    while i < a.len()
        invariant
            a@.len() == b@.len(),
            i <= a@.len(),
            forall|j: int| 0 <= j < i ==> a@[j] == b@[j],
        decreases a@.len() - i,
    {
        if a[i] != b[i] {
            return false;
        }
        i = i + 1;
    }
    assert(a@ =~= b@);
    true
}

/// The position of the first `c` in `s`.
pub open spec fn find_char_from(s: Seq<char>, c: char, k: int) -> Option<int>
    decreases s.len() - k,
{
    if k < 0 || k >= s.len() {
        None
    } else if s[k] == c {
        Some(k)
    } else {
        find_char_from(s, c, k + 1)
    }
}

pub open spec fn find_char(s: Seq<char>, c: char) -> Option<int> {
    find_char_from(s, c, 0)
}

/// A position the search from `k` finds lies at or after `k`, inside `s`,
/// and holds `c`.
pub proof fn lemma_find_char_range(s: Seq<char>, c: char, k: int)
    requires
        0 <= k,
    ensures
        find_char_from(s, c, k) matches Some(i) ==> k <= i < s.len() && s[i] == c,
    decreases s.len() - k,
{
    if k < s.len() && s[k] != c {
        lemma_find_char_range(s, c, k + 1);
    }
}

pub fn find_char_in(s: &Vec<char>, c: char) -> (r: Option<usize>)
    ensures
        match find_char(s@, c) {
            Some(i) => r == Some(i as usize) && 0 <= i < s@.len() && s@[i] == c,
            None => r is None,
        },
{
    proof {
        lemma_find_char_range(s@, c, 0);
    }
    let mut i: usize = 0;
    while i < s.len()
        invariant
            i <= s@.len(),
            find_char(s@, c) == find_char_from(s@, c, i as int),
        decreases s@.len() - i,
    {
        if s[i] == c {
            return Some(i);
        }
        i = i + 1;
    }
    None
}

/// The position of the first `a` directly followed by `b` in `s`.
pub open spec fn find_pair_from(s: Seq<char>, a: char, b: char, k: int) -> Option<int>
    decreases s.len() - k,
{
    if k < 0 || k + 1 >= s.len() {
        None
    } else if s[k] == a && s[k + 1] == b {
        Some(k)
    } else {
        find_pair_from(s, a, b, k + 1)
    }
}

/// A position the pair search from `k` finds lies at or after `k`, with
/// its successor inside `s`.
pub proof fn lemma_find_pair_range(s: Seq<char>, a: char, b: char, k: int)
    requires
        0 <= k,
    ensures
        find_pair_from(s, a, b, k) matches Some(i) ==> k <= i && i + 1 < s.len(),
    decreases s.len() - k,
{
    if k + 1 < s.len() && !(s[k] == a && s[k + 1] == b) {
        lemma_find_pair_range(s, a, b, k + 1);
    }
}

pub fn find_pair_in(s: &Vec<char>, a: char, b: char) -> (r: Option<usize>)
    ensures
        match find_pair_from(s@, a, b, 0) {
            Some(i) => r == Some(i as usize) && 0 <= i && i + 1 < s@.len(),
            None => r is None,
        },
{
    proof {
        lemma_find_pair_range(s@, a, b, 0);
    }
    let n = s.len();
    if n < 2 {
        return None;
    }
    let mut i: usize = 0;
    while i < n - 1
        invariant
            n == s@.len(),
            n >= 2,
            find_pair_from(s@, a, b, 0) == find_pair_from(s@, a, b, i as int),
        decreases s@.len() - i,
    {
        if s[i] == a && s[i + 1] == b {
            return Some(i);
        }
        i = i + 1;
    }
    None
}

} // verus!
