//! Text helpers with exact specifications: decimal rendering and parsing of
//! integers, whitespace trimming, substring search and joining.

use vstd::prelude::*;
use vstd::string::*;

verus! {

/// The ASCII digit for `d` (meaningful for `d < 10`).
pub open spec fn digit_char(d: nat) -> char {
    ((d + 48) as u8) as char
}

/// Decimal notation of `n`: its digits, most significant first, with no
/// leading zeros; zero is written as a single `0`.
pub open spec fn decimal(n: nat) -> Seq<char>
    decreases n,
{
    if n < 10 {
        seq![digit_char(n)]
    } else {
        decimal(n / 10).push(digit_char(n % 10))
    }
}

/// The pieces of `parts` in order, with `sep` between each two of them.
pub open spec fn join(parts: Seq<Seq<char>>, sep: Seq<char>) -> Seq<char>
    decreases parts.len(),
{
    if parts.len() == 0 {
        Seq::empty()
    } else if parts.len() == 1 {
        parts[0]
    } else {
        join(parts.drop_last(), sep) + sep + parts.last()
    }
}

/// The views of a list of strings.
pub open spec fn string_views(v: Seq<String>) -> Seq<Seq<char>> {
    v.map_values(|s: String| s@)
}

/// The decimal notations of a list of numbers.
pub open spec fn decimals(v: Seq<u32>) -> Seq<Seq<char>> {
    v.map_values(|n: u32| decimal(n as nat))
}

/// Whether `c` has the Unicode White_Space property (what `char::is_whitespace` tests).
pub open spec fn is_white_space(c: char) -> bool {
    let u = c as u32;
    ||| 0x09 <= u <= 0x0d
    ||| u == 0x20
    ||| u == 0x85
    ||| u == 0xa0
    ||| u == 0x1680
    ||| 0x2000 <= u <= 0x200a
    ||| u == 0x2028
    ||| u == 0x2029
    ||| u == 0x202f
    ||| u == 0x205f
    ||| u == 0x3000
}

/// `s` without its leading white space.
pub open spec fn trim_start(s: Seq<char>) -> Seq<char>
    decreases s.len(),
{
    if s.len() > 0 && is_white_space(s[0]) {
        trim_start(s.drop_first())
    } else {
        s
    }
}

/// `s` without its trailing white space.
pub open spec fn trim_end(s: Seq<char>) -> Seq<char>
    decreases s.len(),
{
    if s.len() > 0 && is_white_space(s.last()) {
        trim_end(s.drop_last())
    } else {
        s
    }
}

/// `s` without leading and trailing white space (what `str::trim` returns).
pub open spec fn trim(s: Seq<char>) -> Seq<char> {
    trim_end(trim_start(s))
}

/// Whether `needle` occurs in `hay` as a contiguous run of characters.
pub open spec fn contains_seq(hay: Seq<char>, needle: Seq<char>) -> bool {
    exists|i: int| 0 <= i <= hay.len() - needle.len() && #[trigger] hay.subrange(i, i + needle.len()) == needle
}

/// Whether `c` is one of the ASCII digits `0` to `9`.
pub open spec fn is_digit(c: char) -> bool {
    '0' <= c <= '9'
}

/// The value of a run of ASCII digits read in decimal.
pub open spec fn digits_value(s: Seq<char>) -> nat
    decreases s.len(),
{
    if s.len() == 0 {
        0
    } else {
        digits_value(s.drop_last()) * 10 + ((s.last() as u32) - 48) as nat
    }
}

/// What parsing `s` as an unsigned integer no larger than `max` gives: an
/// optional `+` sign followed by at least one ASCII digit, and nothing else,
/// with a value that fits; `None` otherwise.
pub open spec fn parse_unsigned(s: Seq<char>, max: nat) -> Option<nat> {
    let digits = unsigned_digits(s);
    if digits.len() > 0 && all_digits(digits) && digits_value(digits) <= max {
        Some(digits_value(digits))
    } else {
        None
    }
}

/// `s` without the `+` sign it may start with.
pub open spec fn unsigned_digits(s: Seq<char>) -> Seq<char> {
    if s.len() > 0 && s[0] == '+' {
        s.drop_first()
    } else {
        s
    }
}

/// Whether every character of `s` is an ASCII digit.
pub open spec fn all_digits(s: Seq<char>) -> bool {
    forall|i: int| 0 <= i < s.len() ==> is_digit(#[trigger] s[i])
}

/// Appends one character to a string (`String::push`).
#[verifier::external_body]
pub(crate) fn push_char(s: &mut String, c: char)
    ensures
        final(s)@ == old(s)@.push(c),
{
    s.push(c);
}

/// Renders `n` in decimal notation.
pub fn decimal_string(n: u128) -> (s: String)
    ensures
        s@ == decimal(n as nat),
    decreases n,
{
    let digit = ((n % 10) as u8 + 48u8) as char;
    if n < 10 {
        let mut s = String::new();
        push_char(&mut s, digit);
        s
    } else {
        let mut s = decimal_string(n / 10);
        push_char(&mut s, digit);
        s
    }
}

/// The characters of `s`, in order.
pub fn chars_of(s: &str) -> (v: Vec<char>)
    ensures
        v@ == s@,
{
    let n = s.unicode_len();
    let mut v: Vec<char> = Vec::new();
    for i in 0..n
        invariant
            n == s@.len(),
            v@ == s@.take(i as int),
    {
        v.push(s.get_char(i));
        assert(s@.take(i + 1) == s@.take(i as int).push(s@[i as int]));
    }
    assert(s@.take(n as int) == s@);
    v
}

/// The string made of `chars[from..to]`.
pub fn string_from_chars(chars: &Vec<char>, from: usize, to: usize) -> (s: String)
    requires
        from <= to <= chars@.len(),
    ensures
        s@ == chars@.subrange(from as int, to as int),
{
    let mut s = String::new();
    let mut i = from;
    while i < to
        invariant
            from <= i <= to <= chars@.len(),
            s@ == chars@.subrange(from as int, i as int),
        decreases to - i,
    {
        push_char(&mut s, chars[i]);
        assert(chars@.subrange(from as int, i + 1) == chars@.subrange(from as int, i as int).push(chars@[i as int]));
        i = i + 1;
    }
    s
}

/// Whether `c` is white space in the sense of `char::is_whitespace`.
pub fn char_is_white_space(c: char) -> (b: bool)
    ensures
        b == is_white_space(c),
{
    let u = c as u32;
    (0x09 <= u && u <= 0x0d) || u == 0x20 || u == 0x85 || u == 0xa0 || u == 0x1680 || (0x2000 <= u
        && u <= 0x200a) || u == 0x2028 || u == 0x2029 || u == 0x202f || u == 0x205f || u == 0x3000
}

proof fn lemma_trim_start_skip(s: Seq<char>, k: int)
    requires
        0 <= k <= s.len(),
        forall|j: int| 0 <= j < k ==> is_white_space(#[trigger] s[j]),
    ensures
        trim_start(s) == trim_start(s.subrange(k, s.len() as int)),
    decreases k,
{
    if k == 0 {
        assert(s.subrange(0, s.len() as int) == s);
    } else {
        assert(is_white_space(s[0]));
        assert(s.drop_first() == s.subrange(1, s.len() as int));
        assert forall|j: int| 0 <= j < k - 1 implies is_white_space(#[trigger] s.drop_first()[j]) by {
            assert(s.drop_first()[j] == s[j + 1]);
        }
        lemma_trim_start_skip(s.drop_first(), k - 1);
        assert(s.drop_first().subrange(k - 1, s.drop_first().len() as int) == s.subrange(k, s.len() as int));
    }
}

proof fn lemma_trim_end_take(s: Seq<char>, k: int)
    requires
        0 <= k <= s.len(),
        forall|j: int| k <= j < s.len() ==> is_white_space(#[trigger] s[j]),
    ensures
        trim_end(s) == trim_end(s.subrange(0, k)),
    decreases s.len() - k,
{
    if k == s.len() {
        assert(s.subrange(0, k) == s);
    } else {
        assert(is_white_space(s.last()));
        assert(s.drop_last() == s.subrange(0, s.len() - 1));
        assert forall|j: int| k <= j < s.drop_last().len() implies is_white_space(#[trigger] s.drop_last()[j]) by {
            assert(s.drop_last()[j] == s[j]);
        }
        lemma_trim_end_take(s.drop_last(), k);
        assert(s.drop_last().subrange(0, k) == s.subrange(0, k));
    }
}

/// `s` without leading and trailing white space.
pub fn trim_string(s: &str) -> (t: String)
    ensures
        t@ == trim(s@),
{
    let chars = chars_of(s);
    let n = chars.len();
    let mut a: usize = 0;
    while a < n && char_is_white_space(chars[a])
        invariant
            a <= n == chars@.len(),
            forall|j: int| 0 <= j < a ==> is_white_space(#[trigger] chars@[j]),
        decreases n - a,
    {
        a = a + 1;
    }
    let mut b: usize = n;
    while b > a && char_is_white_space(chars[b - 1])
        invariant
            a <= b <= n == chars@.len(),
            forall|j: int| b <= j < n ==> is_white_space(#[trigger] chars@[j]),
        decreases b - a,
    {
        b = b - 1;
    }
    proof {
        let sv = s@;
        lemma_trim_start_skip(sv, a as int);
        let rest = sv.subrange(a as int, n as int);
        if a < n {
            assert(!is_white_space(rest[0]));
        }
        assert(trim_start(rest) == rest);
        assert forall|j: int| b - a <= j < rest.len() implies is_white_space(#[trigger] rest[j]) by {
            assert(rest[j] == sv[a + j]);
        }
        lemma_trim_end_take(rest, b - a);
        let mid = rest.subrange(0, b - a);
        assert(mid == sv.subrange(a as int, b as int));
        if b > a {
            assert(!is_white_space(mid.last()));
        }
        assert(trim_end(mid) == mid);
    }
    string_from_chars(&chars, a, b)
}

/// Whether `needle` occurs in `hay` (what `str::contains` answers for a string pattern).
pub fn contains_text(hay: &str, needle: &str) -> (b: bool)
    ensures
        b == contains_seq(hay@, needle@),
{
    let h = chars_of(hay);
    let n = chars_of(needle);
    if n.len() > h.len() {
        proof {
            assert forall|i: int| 0 <= i <= hay@.len() - needle@.len() implies #[trigger] hay@.subrange(i, i + needle@.len()) != needle@ by {
            }
        }
        return false;
    }
    let hl = h.len();
    let last = hl - n.len();
    let mut i: usize = 0;
    while i <= last
        invariant
            h@ == hay@,
            n@ == needle@,
            last == h@.len() - n@.len(),
            hl == h@.len(),
            n@.len() <= h@.len(),
            i <= last + 1,
            forall|k: int| 0 <= k < i ==> #[trigger] hay@.subrange(k, k + needle@.len()) != needle@,
        decreases last + 1 - i,
    {
        let mut j: usize = 0;
        let mut same = true;
        while j < n.len()
            invariant
                h@ == hay@,
                n@ == needle@,
                i <= last,
                last == h@.len() - n@.len(),
                j <= n@.len(),
                n@.len() <= h@.len(),
                hl == h@.len(),
                same == (forall|m: int| 0 <= m < j ==> h@[i + m] == n@[m]),
            decreases n@.len() - j,
        {
            assert(i + j < h@.len());
            if h[i + j] != n[j] {
                same = false;
            }
            j = j + 1;
        }
        if same {
            assert(hay@.subrange(i as int, i + needle@.len()) =~= needle@);
            return true;
        }
        assert(hay@.subrange(i as int, i + needle@.len())[(choose|m: int| 0 <= m < n@.len() && h@[i + m] != n@[m])] != needle@[(choose|m: int| 0 <= m < n@.len() && h@[i + m] != n@[m])]);
        if i == last {
            return false;
        }
        i = i + 1;
    }
    false
}

proof fn lemma_digits_value_grows(s: Seq<char>, j: int)
    requires
        0 <= j <= s.len(),
        forall|i: int| j <= i < s.len() ==> is_digit(#[trigger] s[i]),
    ensures
        digits_value(s.subrange(0, j)) <= digits_value(s),
    decreases s.len() - j,
{
    if j == s.len() {
        assert(s.subrange(0, j) == s);
    } else {
        let d = s.drop_last();
        assert forall|i: int| j <= i < d.len() implies is_digit(#[trigger] d[i]) by {
            assert(d[i] == s[i]);
        }
        lemma_digits_value_grows(d, j);
        assert(d.subrange(0, j) == s.subrange(0, j));
        assert(is_digit(s.last()));
    }
}

/// Parses `chars` as an unsigned integer no larger than `max`.
fn parse_unsigned_chars(chars: &Vec<char>, max: u64) -> (r: Option<u64>)
    ensures
        match parse_unsigned(chars@, max as nat) {
            Some(v) => r == Some(v as u64),
            None => r is None,
        },
{
    let n = chars.len();
    let start: usize = if n > 0 && chars[0] == '+' { 1 } else { 0 };
    let ghost digits = chars@.subrange(start as int, n as int);
    proof {
        if start == 1 {
            assert(chars@.drop_first() == digits);
        } else {
            assert(chars@ == digits);
        }
    }
    if start >= n {
        return None;
    }
    let mut acc: u64 = 0;
    let mut i: usize = start;
    while i < n
        invariant
            start <= i <= n == chars@.len(),
            start < n,
            digits == chars@.subrange(start as int, n as int),
            digits == unsigned_digits(chars@),
            acc as nat == digits_value(chars@.subrange(start as int, i as int)),
            acc <= max,
            forall|k: int| start <= k < i ==> is_digit(#[trigger] chars@[k]),
        decreases n - i,
    {
        let c = chars[i];
        let ghost prefix = chars@.subrange(start as int, i + 1);
        assert(prefix.drop_last() == chars@.subrange(start as int, i as int));
        if !('0' <= c && c <= '9') {
            assert(digits[i - start] == c);
            assert(!is_digit(digits[i - start]));
            assert(parse_unsigned(chars@, max as nat) is None);
            return None;
        }
        let d: u64 = (c as u32 - 48) as u64;
        let next = match acc.checked_mul(10) {
            Some(t) => t.checked_add(d),
            None => None,
        };
        let over = match next {
            Some(v) => v > max,
            None => true,
        };
        if over {
            proof {
                assert(digits_value(prefix) > max);
                if all_digits(digits) {
                    assert forall|k: int| (i + 1 - start) <= k < digits.len() implies is_digit(#[trigger] digits[k]) by {
                    }
                    lemma_digits_value_grows(digits, i + 1 - start);
                    assert(digits.subrange(0, i + 1 - start) == prefix);
                    assert(digits_value(digits) > max);
                }
                assert(parse_unsigned(chars@, max as nat) is None);
            }
            return None;
        }
        acc = match next {
            Some(v) => v,
            None => 0,
        };
        i = i + 1;
    }
    proof {
        assert forall|k: int| 0 <= k < digits.len() implies is_digit(#[trigger] digits[k]) by {
            assert(digits[k] == chars@[start + k]);
        }
    }
    Some(acc)
}

/// Parses `s` as a `usize` the way `str::parse::<usize>` does.
pub fn parse_usize(s: &str) -> (r: Option<usize>)
    ensures
        match parse_unsigned(s@, usize::MAX as nat) {
            Some(v) => r == Some(v as usize),
            None => r is None,
        },
{
    let chars = chars_of(s);
    match parse_unsigned_chars(&chars, usize::MAX as u64) {
        Some(v) => Some(v as usize),
        None => None,
    }
}

/// Parses `s` as a `u32` the way `str::parse::<u32>` does.
pub fn parse_u32(s: &str) -> (r: Option<u32>)
    ensures
        match parse_unsigned(s@, u32::MAX as nat) {
            Some(v) => r == Some(v as u32),
            None => r is None,
        },
{
    let chars = chars_of(s);
    match parse_unsigned_chars(&chars, u32::MAX as u64) {
        Some(v) => Some(v as u32),
        None => None,
    }
}

/// Joins the strings of `parts` with `sep` between each two of them.
pub fn join_strings(parts: &Vec<String>, sep: &str) -> (s: String)
    ensures
        s@ == join(string_views(parts@), sep@),
{
    let mut s = String::new();
    let n = parts.len();
    for i in 0..n
        invariant
            n == parts@.len(),
            s@ == join(string_views(parts@.take(i as int)), sep@),
    {
        let ghost before = string_views(parts@.take(i as int));
        let ghost after = string_views(parts@.take(i + 1));
        assert(after.drop_last() == before);
        assert(after.last() == parts@[i as int]@);
        if i > 0 {
            s.append(sep);
        }
        s.append(parts[i].as_str());
    }
    assert(parts@.take(n as int) == parts@);
    s
}

/// Joins the decimal notations of `ids` with `sep` between each two of them.
pub fn join_decimals(ids: &Vec<u32>, sep: &str) -> (s: String)
    ensures
        s@ == join(decimals(ids@), sep@),
{
    let mut s = String::new();
    let n = ids.len();
    for i in 0..n
        invariant
            n == ids@.len(),
            s@ == join(decimals(ids@.take(i as int)), sep@),
    {
        let ghost before = decimals(ids@.take(i as int));
        let ghost after = decimals(ids@.take(i + 1));
        assert(after.drop_last() == before);
        if i > 0 {
            s.append(sep);
        }
        let d = decimal_string(ids[i] as u128);
        s.append(d.as_str());
    }
    assert(ids@.take(n as int) == ids@);
    s
}

/// Lexicographic order of character sequences by code point (the order of
/// `String`'s `Ord`).
pub open spec fn lex_less(a: Seq<char>, b: Seq<char>) -> bool
    decreases a.len(),
{
    if a.len() == 0 {
        b.len() > 0
    } else if b.len() == 0 {
        false
    } else if a[0] != b[0] {
        a[0] < b[0]
    } else {
        lex_less(a.drop_first(), b.drop_first())
    }
}

/// Whether the sequences are in strictly increasing lexicographic order
/// (so that none occurs twice).
pub open spec fn strictly_sorted(v: Seq<Seq<char>>) -> bool {
    forall|i: int, j: int| 0 <= i < j < v.len() ==> lex_less(#[trigger] v[i], #[trigger] v[j])
}

pub proof fn lemma_lex_irreflexive(a: Seq<char>)
    ensures
        !lex_less(a, a),
    decreases a.len(),
{
    if a.len() > 0 {
        lemma_lex_irreflexive(a.drop_first());
    }
}

pub proof fn lemma_lex_transitive(a: Seq<char>, b: Seq<char>, c: Seq<char>)
    requires
        lex_less(a, b),
        lex_less(b, c),
    ensures
        lex_less(a, c),
    decreases a.len(),
{
    if a.len() > 0 && b.len() > 0 && c.len() > 0 {
        if a[0] == b[0] && b[0] == c[0] {
            lemma_lex_transitive(a.drop_first(), b.drop_first(), c.drop_first());
        }
    }
}

pub proof fn lemma_lex_total(a: Seq<char>, b: Seq<char>)
    requires
        a != b,
    ensures
        lex_less(a, b) || lex_less(b, a),
    decreases a.len(),
{
    if a.len() > 0 && b.len() > 0 && a[0] == b[0] {
        if a.drop_first() == b.drop_first() {
            assert(a == seq![a[0]] + a.drop_first());
            assert(b == seq![b[0]] + b.drop_first());
        }
        lemma_lex_total(a.drop_first(), b.drop_first());
    } else if a.len() == 0 && b.len() == 0 {
        assert(a == b);
    }
}

/// Whether `a` comes before `b` in lexicographic order.
pub fn str_less(a: &str, b: &str) -> (r: bool)
    ensures
        r == lex_less(a@, b@),
{
    let x = chars_of(a);
    let y = chars_of(b);
    let mut i: usize = 0;
    assert(a@.skip(0) == a@);
    assert(b@.skip(0) == b@);
    while i < x.len() && i < y.len() && x[i] == y[i]
        invariant
            x@ == a@,
            y@ == b@,
            i <= x@.len(),
            i <= y@.len(),
            lex_less(a@, b@) == lex_less(a@.skip(i as int), b@.skip(i as int)),
        decreases x@.len() - i,
    {
        assert(a@.skip(i as int).drop_first() == a@.skip(i + 1));
        assert(b@.skip(i as int).drop_first() == b@.skip(i + 1));
        i = i + 1;
    }
    if i == x.len() {
        i < y.len()
    } else if i == y.len() {
        false
    } else {
        assert(a@.skip(i as int)[0] == x@[i as int]);
        assert(b@.skip(i as int)[0] == y@[i as int]);
        x[i] < y[i]
    }
}

/// Adds `s` to a strictly sorted list of strings unless it is there already,
/// keeping the list strictly sorted.
pub fn insert_sorted(v: &mut Vec<String>, s: String)
    requires
        strictly_sorted(string_views(old(v)@)),
    ensures
        strictly_sorted(string_views(final(v)@)),
        forall|x: Seq<char>| string_views(final(v)@).contains(x) <==> (string_views(old(v)@).contains(x) || x == s@),
        final(v)@.len() == old(v)@.len() + (if string_views(old(v)@).contains(s@) { 0int } else { 1int }),
{
    let ghost old_views = string_views(v@);
    let n = v.len();
    let mut p: usize = 0;
    while p < n && str_less(v[p].as_str(), s.as_str())
        invariant
            n == v@.len(),
            p <= n,
            old_views == string_views(v@),
            forall|i: int| 0 <= i < p ==> lex_less(#[trigger] old_views[i], s@),
        decreases n - p,
    {
        p = p + 1;
    }
    if p < n && v[p] == s {
        assert(old_views[p as int] == s@);
        assert(old_views.contains(s@));
        return;
    }
    proof {
        assert forall|i: int| p <= i < n implies lex_less(s@, #[trigger] old_views[i]) by {
            assert(!lex_less(old_views[p as int], s@));
            lemma_lex_total(old_views[p as int], s@);
            if i > p {
                lemma_lex_transitive(s@, old_views[p as int], old_views[i]);
            }
        }
        assert forall|i: int| 0 <= i < n implies old_views[i] != s@ by {
            if i < p {
                lemma_lex_irreflexive(s@);
            } else {
                lemma_lex_irreflexive(s@);
            }
        }
        assert(!old_views.contains(s@));
    }
    let ghost sv = s@;
    v.insert(p, s);
    proof {
        let nv = string_views(v@);
        assert(nv == old_views.insert(p as int, sv));
        assert forall|i: int, j: int| 0 <= i < j < nv.len() implies lex_less(#[trigger] nv[i], #[trigger] nv[j]) by {
            if j < p {
            } else if j == p {
            } else if i < p {
                lemma_lex_transitive(nv[i], sv, nv[j]);
            } else if i == p {
            } else {
            }
        }
        assert forall|x: Seq<char>| nv.contains(x) <==> (old_views.contains(x) || x == sv) by {
            if nv.contains(x) {
                let k = choose|k: int| 0 <= k < nv.len() && nv[k] == x;
                if k < p {
                    assert(old_views[k] == x);
                } else if k > p {
                    assert(old_views[k - 1] == x);
                }
            }
            if old_views.contains(x) {
                let k = choose|k: int| 0 <= k < old_views.len() && old_views[k] == x;
                if k < p {
                    assert(nv[k] == x);
                } else {
                    assert(nv[k + 1] == x);
                }
            }
            if x == sv {
                assert(nv[p as int] == x);
            }
        }
    }
}

} // verus!
