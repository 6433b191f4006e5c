//! Verified text utilities: character classification, equality and
//! substring search over `Seq<char>` views, and decimal parsing and
//! formatting. Every source adapter and the ranking code build on these.

use vstd::prelude::*;

verus! {

/// Relies on std's String::push: appends exactly one character.
#[verifier::external_body]
pub fn push_char(s: &mut String, c: char)
    ensures
        final(s)@ == old(s)@.push(c),
{
    s.push(c);
}

/// ASCII lowercasing of a single character.
pub open spec fn lower_char(c: char) -> char {
    if 'A' <= c && c <= 'Z' {
        (((c as u8) + 32) as u8) as char
    } else {
        c
    }
}

/// ASCII lowercasing of a character sequence, character by character.
pub open spec fn lower_seq(s: Seq<char>) -> Seq<char> {
    s.map_values(|c: char| lower_char(c))
}

/// Lowercases the ASCII letters of `s`, leaving every other character as is.
pub fn to_lowercase_ascii(s: &str) -> (r: String)
    ensures
        r@ == lower_seq(s@),
{
    let n: usize = s.unicode_len();
    let mut r = String::new();
    let mut i: usize = 0;
    while i < n
        invariant
            n == s@.len(),
            i <= n,
            r@ == lower_seq(s@.subrange(0, i as int)),
        decreases n - i,
    {
        let c = s.get_char(i);
        let lc: char = if 'A' <= c && c <= 'Z' {
            ((c as u8) + 32) as char
        } else {
            c
        };
        push_char(&mut r, lc);
        proof {
            assert(s@.subrange(0, i + 1).drop_last() == s@.subrange(0, i as int));
            assert(lower_seq(s@.subrange(0, i + 1)) == lower_seq(s@.subrange(0, i as int)).push(lower_char(s@[i as int])));
        }
        i = i + 1;
    }
    proof {
        assert(s@.subrange(0, n as int) == s@);
    }
    r
}

/// Character-for-character equality of two string slices.
pub fn str_eq(a: &str, b: &str) -> (r: bool)
    ensures
        r == (a@ == b@),
{
    let na: usize = a.unicode_len();
    let nb: usize = b.unicode_len();
    if na != nb {
        return false;
    }
    let mut i: usize = 0;
    while i < na
        invariant
            na == a@.len(),
            na == b@.len(),
            i <= na,
            forall|j: int| 0 <= j < i ==> a@[j] == b@[j],
        decreases na - i,
    {
        if a.get_char(i) != b.get_char(i) {
            return false;
        }
        i = i + 1;
    }
    proof {
        assert(a@ =~= b@);
    }
    true
}

/// The needle `n` occurs in the haystack `h` starting at position `i`.
pub open spec fn occurs_at(h: Seq<char>, n: Seq<char>, i: int) -> bool {
    0 <= i && i + n.len() <= h.len() && h.subrange(i, i + n.len() as int) == n
}

/// The needle `n` occurs somewhere in the haystack `h`.
pub open spec fn contains_seq(h: Seq<char>, n: Seq<char>) -> bool {
    exists|i: int| occurs_at(h, n, i)
}

/// Whether `n` occurs in `h` at exactly position `i`.
fn match_at(h: &str, n: &str, i: usize) -> (r: bool)
    requires
        i + n@.len() <= h@.len(),
        h@.len() <= usize::MAX,
    ensures
        r == occurs_at(h@, n@, i as int),
{
    let nl: usize = n.unicode_len();
    let mut j: usize = 0;
    while j < nl
        invariant
            i + nl <= h@.len() <= usize::MAX,
            nl == n@.len(),
            j <= nl,
            forall|k: int| 0 <= k < j ==> h@[i + k] == n@[k],
        decreases nl - j,
    {
        if h.get_char(i + j) != n.get_char(j) {
            proof {
                assert(h@.subrange(i as int, i + nl as int)[j as int] == h@[i + j]);
            }
            return false;
        }
        j = j + 1;
    }
    proof {
        assert(h@.subrange(i as int, i + nl as int) =~= n@);
    }
    true
}

/// Position of the first occurrence of `n` in `h`, if any.
pub fn find_sub(h: &str, n: &str) -> (r: Option<usize>)
    ensures
        match r {
            Some(i) => occurs_at(h@, n@, i as int) && (forall|j: int|
                0 <= j < i ==> !occurs_at(h@, n@, j)),
            None => !contains_seq(h@, n@),
        },
{
    let hl: usize = h.unicode_len();
    let nl: usize = n.unicode_len();
    if nl > hl {
        return None;
    }
    if nl == 0 {
        proof {
            assert(h@.subrange(0, 0) =~= n@);
        }
        return Some(0);
    }
    let mut i: usize = 0;
    while i <= hl - nl
        invariant
            1 <= nl <= hl,
            hl == h@.len(),
            nl == n@.len(),
            i <= hl - nl + 1,
            forall|j: int| 0 <= j < i ==> !occurs_at(h@, n@, j),
        decreases hl - nl - i + 1,
    {
        if match_at(h, n, i) {
            return Some(i);
        }
        i = i + 1;
    }
    proof {
        assert(forall|j: int| j > hl - nl ==> !occurs_at(h@, n@, j));
    }
    None
}

/// Whether `n` occurs somewhere in `h`.
pub fn contains_sub(h: &str, n: &str) -> (r: bool)
    ensures
        r == contains_seq(h@, n@),
{
    match find_sub(h, n) {
        Some(_) => true,
        None => false,
    }
}

/// Index of the first occurrence of needle `n` in `h`, or `h.len()`
/// when `n` does not occur.
pub open spec fn split_point(h: Seq<char>, n: Seq<char>) -> int
    decreases h.len(),
{
    if occurs_at(h, n, 0) {
        0
    } else if h.len() == 0 {
        0
    } else {
        1 + split_point(h.drop_first(), n)
    }
}

pub proof fn lemma_split_point(h: Seq<char>, n: Seq<char>)
    requires
        n.len() > 0,
    ensures
        0 <= split_point(h, n) <= h.len(),
        contains_seq(h, n) ==> occurs_at(h, n, split_point(h, n)),
        forall|j: int| 0 <= j < split_point(h, n) ==> !occurs_at(h, n, j),
        !contains_seq(h, n) ==> split_point(h, n) == h.len(),
    decreases h.len(),
{
    if occurs_at(h, n, 0) {
    } else if h.len() == 0 {
        assert forall|i: int| !occurs_at(h, n, i) by {}
    } else {
        let d = h.drop_first();
        lemma_split_point(d, n);
        assert forall|i: int| 0 <= i implies occurs_at(h, n, i + 1) == occurs_at(d, n, i) by {
            if i + 1 + n.len() <= h.len() {
                assert(d.subrange(i, i + n.len() as int) =~= h.subrange(
                    i + 1,
                    i + 1 + n.len() as int,
                ));
            }
        }
        if contains_seq(h, n) {
            let w = choose|i: int| occurs_at(h, n, i);
            assert(w >= 1);
            assert(occurs_at(d, n, w - 1));
        }
        if contains_seq(d, n) {
            let w = choose|i: int| occurs_at(d, n, i);
            assert(occurs_at(h, n, w + 1));
        }
        assert forall|j: int| 0 <= j < split_point(h, n) implies !occurs_at(h, n, j) by {
            if j >= 1 {
                assert(!occurs_at(d, n, j - 1));
            }
        }
    }
}

/// `s` with every non-overlapping occurrence of `pat` replaced by
/// `repl`, scanning left to right.
pub open spec fn replace_all_seq(s: Seq<char>, pat: Seq<char>, repl: Seq<char>) -> Seq<char>
    decreases s.len(),
{
    if s.len() == 0 {
        Seq::empty()
    } else if pat.len() > 0 && occurs_at(s, pat, 0) {
        repl + replace_all_seq(s.subrange(pat.len() as int, s.len() as int), pat, repl)
    } else {
        seq![s[0]] + replace_all_seq(s.drop_first(), pat, repl)
    }
}

/// Replaces every occurrence of `pat` in `s` with `repl`, left to
/// right, non-overlapping.
#[verifier::loop_isolation(false)]
pub fn replace_all(s: &str, pat: &str, repl: &str) -> (r: String)
    requires
        pat@.len() > 0,
    ensures
        r@ == replace_all_seq(s@, pat@, repl@),
{
    let n: usize = s.unicode_len();
    let pl: usize = pat.unicode_len();
    let mut r = String::new();
    proof {
        assert(s@.subrange(0, n as int) =~= s@);
        assert(r@ + replace_all_seq(s@, pat@, repl@) =~= replace_all_seq(s@, pat@, repl@));
    }
    let mut i: usize = 0;
    while i < n
        invariant
            i <= n,
            n == s@.len(),
            pl == pat@.len(),
            r@ + replace_all_seq(s@.subrange(i as int, n as int), pat@, repl@) == replace_all_seq(
                s@,
                pat@,
                repl@,
            ),
        decreases n - i,
    {
        let ghost prev = r@;
        let ghost sub = s@.subrange(i as int, n as int);
        if pl <= n - i && match_at(s, pat, i) {
            proof {
                assert(sub.subrange(0, pl as int) =~= s@.subrange(i as int, i + pl));
                assert(occurs_at(sub, pat@, 0));
                assert(sub.subrange(pl as int, sub.len() as int) =~= s@.subrange(i + pl, n as int));
            }
            r.append(repl);
            proof {
                assert(r@ + replace_all_seq(s@.subrange(i + pl, n as int), pat@, repl@) =~= prev
                    + replace_all_seq(sub, pat@, repl@));
            }
            i = i + pl;
        } else {
            proof {
                if occurs_at(sub, pat@, 0) {
                    assert(sub.subrange(0, pl as int) =~= s@.subrange(i as int, i + pl));
                    assert(occurs_at(s@, pat@, i as int));
                    assert(false);
                }
                assert(sub.drop_first() =~= s@.subrange(i + 1, n as int));
            }
            let piece = s.substring_char(i, i + 1);
            r.append(piece);
            proof {
                assert(piece@ =~= seq![s@[i as int]]);
                assert(r@ + replace_all_seq(s@.subrange(i + 1, n as int), pat@, repl@) =~= prev
                    + replace_all_seq(sub, pat@, repl@));
            }
            i = i + 1;
        }
    }
    proof {
        assert(s@.subrange(n as int, n as int) =~= Seq::<char>::empty());
        assert(r@ + Seq::<char>::empty() =~= r@);
    }
    r
}

/// The characters std's trim strips: the Unicode White_Space set.
pub open spec fn is_space(c: char) -> bool {
    c == '\u{0009}' || c == '\u{000A}' || c == '\u{000B}' || c == '\u{000C}' || c == '\u{000D}'
        || c == '\u{0020}' || c == '\u{0085}' || c == '\u{00A0}' || c == '\u{1680}' || (
    '\u{2000}' <= c && c <= '\u{200A}') || c == '\u{2028}' || c == '\u{2029}' || c == '\u{202F}'
        || c == '\u{205F}' || c == '\u{3000}'
}

/// `s` with leading whitespace removed.
pub open spec fn trim_front(s: Seq<char>) -> Seq<char>
    decreases s.len(),
{
    if s.len() > 0 && is_space(s[0]) {
        trim_front(s.drop_first())
    } else {
        s
    }
}

/// `s` with trailing whitespace removed.
pub open spec fn trim_back(s: Seq<char>) -> Seq<char>
    decreases s.len(),
{
    if s.len() > 0 && is_space(s.last()) {
        trim_back(s.drop_last())
    } else {
        s
    }
}

/// `s` with whitespace removed from both ends.
pub open spec fn trim_seq(s: Seq<char>) -> Seq<char> {
    trim_back(trim_front(s))
}

fn is_space_char(c: char) -> (r: bool)
    ensures
        r == is_space(c),
{
    c == '\u{0009}' || c == '\u{000A}' || c == '\u{000B}' || c == '\u{000C}' || c == '\u{000D}'
        || c == '\u{0020}' || c == '\u{0085}' || c == '\u{00A0}' || c == '\u{1680}' || (
    '\u{2000}' <= c && c <= '\u{200A}') || c == '\u{2028}' || c == '\u{2029}' || c == '\u{202F}'
        || c == '\u{205F}' || c == '\u{3000}'
}

/// Strips leading and trailing whitespace.
pub fn trim_spaces(s: &str) -> (r: String)
    ensures
        r@ == trim_seq(s@),
{
    let n: usize = s.unicode_len();
    proof {
        assert(s@.subrange(0, n as int) =~= s@);
    }
    let mut start: usize = 0;
    while start < n && is_space_char(s.get_char(start))
        invariant
            n == s@.len(),
            start <= n,
            trim_front(s@) == trim_front(s@.subrange(start as int, n as int)),
        decreases n - start,
    {
        proof {
            assert(s@.subrange(start as int, n as int).drop_first() =~= s@.subrange(
                start + 1,
                n as int,
            ));
        }
        start = start + 1;
    }
    proof {
        assert(trim_front(s@) == s@.subrange(start as int, n as int));
    }
    let mut end: usize = n;
    while end > start && is_space_char(s.get_char(end - 1))
        invariant
            n == s@.len(),
            start <= end <= n,
            trim_back(s@.subrange(start as int, n as int)) == trim_back(
                s@.subrange(start as int, end as int),
            ),
        decreases end,
    {
        proof {
            assert(s@.subrange(start as int, end as int).drop_last() =~= s@.subrange(
                start as int,
                end - 1,
            ));
        }
        end = end - 1;
    }
    proof {
        assert(trim_back(s@.subrange(start as int, n as int)) == s@.subrange(
            start as int,
            end as int,
        ));
    }
    let t = s.substring_char(start, end);
    t.to_owned()
}

/// A decimal digit character.
pub open spec fn is_digit(c: char) -> bool {
    '0' <= c && c <= '9'
}

/// Numeric value of a digit character.
pub open spec fn digit_val(c: char) -> int {
    (c as u32) - 48
}

pub open spec fn all_digits(s: Seq<char>) -> bool {
    forall|i: int| 0 <= i < s.len() ==> is_digit(#[trigger] s[i])
}

/// Value of a digit string read most-significant first.
pub open spec fn digits_val(s: Seq<char>) -> int
    decreases s.len(),
{
    if s.len() == 0 {
        0
    } else {
        digits_val(s.drop_last()) * 10 + digit_val(s.last())
    }
}

proof fn lemma_digits_val_nonneg(s: Seq<char>)
    requires
        all_digits(s),
    ensures
        digits_val(s) >= 0,
    decreases s.len(),
{
    if s.len() > 0 {
        lemma_digits_val_nonneg(s.drop_last());
    }
}

/// Reading further digits can only increase the value.
proof fn lemma_digits_val_prefix_le(s: Seq<char>, k: int)
    requires
        all_digits(s),
        0 <= k <= s.len(),
    ensures
        digits_val(s.subrange(0, k)) <= digits_val(s),
    decreases s.len() - k,
{
    if k < s.len() {
        lemma_digits_val_prefix_le(s, k + 1);
        assert(s.subrange(0, k + 1).drop_last() =~= s.subrange(0, k));
        lemma_digits_val_nonneg(s.subrange(0, k));
    } else {
        assert(s.subrange(0, k) =~= s);
    }
}

/// Digit strings stand for non-negative values.
pub proof fn lemma_digits_val_nonneg_of(s: Seq<char>)
    requires
        all_digits(s),
    ensures
        digits_val(s) >= 0,
{
    lemma_digits_val_nonneg(s);
}

/// The digit string of an unsigned decimal text, behind an optional `+`.
pub open spec fn uint_body(s: Seq<char>) -> Seq<char> {
    if s.len() > 0 && s[0] == '+' {
        s.drop_first()
    } else {
        s
    }
}

/// `s` is a well-formed unsigned decimal text.
pub open spec fn is_uint_text(s: Seq<char>) -> bool {
    uint_body(s).len() > 0 && all_digits(uint_body(s))
}

/// Value of a well-formed unsigned decimal text.
pub open spec fn uint_text_val(s: Seq<char>) -> int {
    digits_val(uint_body(s))
}

/// Parses an unsigned decimal the way std does for `usize`: an optional
/// `+`, then one or more digits; anything else, or a value past
/// `usize::MAX`, is rejected.
pub fn parse_usize(s: &str) -> (r: Option<usize>)
    ensures
        is_uint_text(s@) && uint_text_val(s@) <= usize::MAX ==> r == Some(
            uint_text_val(s@) as usize,
        ),
        !(is_uint_text(s@) && uint_text_val(s@) <= usize::MAX) ==> r is None,
{
    let n: usize = s.unicode_len();
    let start: usize = if n > 0 && s.get_char(0) == '+' {
        1
    } else {
        0
    };
    if start == n {
        return None;
    }
    let ghost body = uint_body(s@);
    proof {
        assert(body =~= s@.subrange(start as int, n as int));
    }
    let mut acc: usize = 0;
    let mut k: usize = start;
    while k < n
        invariant
            n == s@.len(),
            start <= k <= n,
            start < n,
            body == uint_body(s@),
            body =~= s@.subrange(start as int, n as int),
            all_digits(body.subrange(0, k - start)),
            acc == digits_val(body.subrange(0, k - start)),
        decreases n - k,
    {
        let c = s.get_char(k);
        if !('0' <= c && c <= '9') {
            proof {
                assert(!is_digit(body[k - start]));
            }
            return None;
        }
        let d: usize = ((c as u32) - 48) as usize;
        proof {
            assert(body.subrange(0, k - start + 1).drop_last() =~= body.subrange(0, k - start));
        }
        let acc10 = match acc.checked_mul(10) {
            Some(v) => v,
            None => {
                proof {
                    if is_uint_text(s@) && uint_text_val(s@) <= usize::MAX {
                        lemma_digits_val_prefix_le(body, k - start + 1);
                    }
                }
                return None;
            },
        };
        let acc_next = match acc10.checked_add(d) {
            Some(v) => v,
            None => {
                proof {
                    if is_uint_text(s@) && uint_text_val(s@) <= usize::MAX {
                        lemma_digits_val_prefix_le(body, k - start + 1);
                    }
                }
                return None;
            },
        };
        acc = acc_next;
        k = k + 1;
    }
    proof {
        assert(body.subrange(0, n - start) =~= body);
    }
    Some(acc)
}

/// Sign of a signed decimal text.
pub open spec fn int_sign(s: Seq<char>) -> int {
    if s.len() > 0 && s[0] == '-' {
        -1
    } else {
        1
    }
}

/// The digit string of a signed decimal text, behind an optional sign.
pub open spec fn int_body(s: Seq<char>) -> Seq<char> {
    if s.len() > 0 && (s[0] == '-' || s[0] == '+') {
        s.drop_first()
    } else {
        s
    }
}

/// `s` is a well-formed signed decimal text.
pub open spec fn is_int_text(s: Seq<char>) -> bool {
    int_body(s).len() > 0 && all_digits(int_body(s))
}

/// Value of a well-formed signed decimal text.
pub open spec fn int_text_val(s: Seq<char>) -> int {
    int_sign(s) * digits_val(int_body(s))
}

/// `s` parses as an `i32`: well-formed and within range.
pub open spec fn fits_i32(s: Seq<char>) -> bool {
    is_int_text(s) && i32::MIN <= int_text_val(s) <= i32::MAX
}

/// Parses a signed decimal the way std does for `i32`: an optional sign,
/// then one or more digits; anything else, or a value out of range, is
/// rejected.
pub fn parse_i32(s: &str) -> (r: Option<i32>)
    ensures
        fits_i32(s@) ==> r == Some(int_text_val(s@) as i32),
        !fits_i32(s@) ==> r is None,
{
    let n: usize = s.unicode_len();
    let mut neg = false;
    let mut start: usize = 0;
    if n > 0 {
        let c0 = s.get_char(0);
        if c0 == '-' {
            neg = true;
            start = 1;
        } else if c0 == '+' {
            start = 1;
        }
    }
    if start == n {
        return None;
    }
    let ghost body = int_body(s@);
    proof {
        assert(body =~= s@.subrange(start as int, n as int));
    }
    let mut mag: u64 = 0;
    let mut k: usize = start;
    while k < n
        invariant
            n == s@.len(),
            start <= k <= n,
            start < n,
            body == int_body(s@),
            body =~= s@.subrange(start as int, n as int),
            all_digits(body.subrange(0, k - start)),
            mag == digits_val(body.subrange(0, k - start)),
            mag <= 0x8000_0000,
        decreases n - k,
    {
        let c = s.get_char(k);
        if !('0' <= c && c <= '9') {
            proof {
                assert(!is_digit(body[k - start]));
            }
            return None;
        }
        let d: u64 = ((c as u32) - 48) as u64;
        proof {
            assert(body.subrange(0, k - start + 1).drop_last() =~= body.subrange(0, k - start));
        }
        let next = mag * 10 + d;
        if next > 0x8000_0000 {
            proof {
                if fits_i32(s@) {
                    lemma_digits_val_prefix_le(body, k - start + 1);
                }
            }
            return None;
        }
        mag = next;
        k = k + 1;
    }
    proof {
        assert(body.subrange(0, n - start) =~= body);
    }
    if neg {
        Some((-(mag as i64)) as i32)
    } else {
        if mag <= 0x7fff_ffff {
            Some(mag as i32)
        } else {
            None
        }
    }
}

/// The character for one decimal digit.
pub open spec fn digit_char(d: int) -> char {
    if d == 0 {
        '0'
    } else if d == 1 {
        '1'
    } else if d == 2 {
        '2'
    } else if d == 3 {
        '3'
    } else if d == 4 {
        '4'
    } else if d == 5 {
        '5'
    } else if d == 6 {
        '6'
    } else if d == 7 {
        '7'
    } else if d == 8 {
        '8'
    } else {
        '9'
    }
}

/// Decimal digit string of a non-negative number, most significant first.
pub open spec fn dec_digits(n: int) -> Seq<char>
    decreases n,
{
    if n < 10 {
        seq![digit_char(n)]
    } else {
        dec_digits(n / 10).push(digit_char(n % 10))
    }
}

fn digit_char_of(d: u64) -> (c: char)
    requires
        d < 10,
    ensures
        c == digit_char(d as int),
{
    if d == 0 {
        '0'
    } else if d == 1 {
        '1'
    } else if d == 2 {
        '2'
    } else if d == 3 {
        '3'
    } else if d == 4 {
        '4'
    } else if d == 5 {
        '5'
    } else if d == 6 {
        '6'
    } else if d == 7 {
        '7'
    } else if d == 8 {
        '8'
    } else {
        '9'
    }
}

/// Formats a number in decimal, as the display layer and URL building need.
pub fn u64_to_string(n: u64) -> (r: String)
    ensures
        r@ == dec_digits(n as int),
    decreases n,
{
    if n < 10 {
        let mut r = String::new();
        push_char(&mut r, digit_char_of(n));
        proof {
            assert(r@ =~= dec_digits(n as int));
        }
        r
    } else {
        let mut r = u64_to_string(n / 10);
        push_char(&mut r, digit_char_of(n % 10));
        r
    }
}

/// `s` with every space replaced by `repl`, used to make queries URL-safe.
pub open spec fn replace_spaces_seq(s: Seq<char>, repl: Seq<char>) -> Seq<char>
    decreases s.len(),
{
    if s.len() == 0 {
        Seq::empty()
    } else {
        (if s[0] == ' ' {
            repl
        } else {
            seq![s[0]]
        }) + replace_spaces_seq(s.drop_first(), repl)
    }
}

/// Replaces every space in `s` with `repl`.
pub fn replace_spaces(s: &str, repl: &str) -> (r: String)
    ensures
        r@ == replace_spaces_seq(s@, repl@),
{
    let n: usize = s.unicode_len();
    let mut r = String::new();
    proof {
        assert(s@.subrange(0, n as int) =~= s@);
        assert(r@ + replace_spaces_seq(s@, repl@) =~= replace_spaces_seq(s@, repl@));
    }
    let mut i: usize = 0;
    while i < n
        invariant
            n == s@.len(),
            i <= n,
            r@ + replace_spaces_seq(s@.subrange(i as int, n as int), repl@) == replace_spaces_seq(
                s@,
                repl@,
            ),
        decreases n - i,
    {
        let ghost prev = r@;
        let ghost sub = s@.subrange(i as int, n as int);
        let c = s.get_char(i);
        if c == ' ' {
            r.append(repl);
        } else {
            let piece = s.substring_char(i, i + 1);
            r.append(piece);
            proof {
                assert(piece@ =~= seq![s@[i as int]]);
            }
        }
        proof {
            assert(sub.drop_first() =~= s@.subrange(i + 1, n as int));
            assert(sub[0] == s@[i as int]);
            assert(r@ + replace_spaces_seq(s@.subrange(i + 1, n as int), repl@) =~= prev
                + replace_spaces_seq(sub, repl@));
        }
        i = i + 1;
    }
    proof {
        assert(s@.subrange(n as int, n as int) =~= Seq::<char>::empty());
        assert(r@ + Seq::<char>::empty() =~= r@);
    }
    r
}

} // verus!
