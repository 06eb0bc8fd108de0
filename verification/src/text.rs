use vstd::prelude::*;
use vstd::string::*;

verus! {

/// Appends one character to a string (`String::push`).
#[verifier::external_body]
pub(crate) fn push_char(s: &mut String, c: char)
    ensures
        final(s)@ == old(s)@.push(c),
{
    s.push(c);
}

/// The characters of a string slice, in order.
pub fn chars_of(s: &str) -> (res: Vec<char>)
    ensures
        res@ == s@,
{
    let mut res: Vec<char> = Vec::new();
    for c in it: s.chars()
        invariant
            res@ == it.seq().take(it.index() as int),
            it.seq() == s@,
    {
        res.push(c);
    }
    res
}

/// A string made of the given characters.
pub fn string_of(v: &[char]) -> (res: String)
    ensures
        res@ == v@,
{
    let mut res = String::new();
    let n = v.len();
    for i in 0..n
        invariant
            n == v@.len(),
            res@ == v@.take(i as int),
    {
        push_char(&mut res, v[i]);
        assert(v@.take(i as int).push(v@[i as int]) =~= v@.take(i + 1));
    }
    assert(v@.take(n as int) =~= v@);
    res
}

/// A copy of a string slice as an owned string.
pub fn owned(s: &str) -> (res: String)
    ensures
        res@ == s@,
{
    s.to_owned()
}

/// Appends a string slice to a string.
pub fn push_str(s: &mut String, t: &str)
    ensures
        final(s)@ == old(s)@ + t@,
{
    s.append(t);
}

/// Whether two character sequences are equal, compared character by character.
pub fn chars_eq(a: &[char], b: &[char]) -> (res: bool)
    ensures
        res == (a@ == b@),
{
    if a.len() != b.len() {
        return false;
    }
    let n = a.len();
    for i in 0..n
        invariant
            n == a@.len(),
            n == b@.len(),
            forall|j: int| 0 <= j < i ==> a@[j] == b@[j],
    {
        if a[i] != b[i] {
            return false;
        }
    }
    assert(a@ =~= b@);
    true
}

/// Whether two string slices hold the same characters.
pub fn str_eq(a: &str, b: &str) -> (res: bool)
    ensures
        res == (a@ == b@),
{
    let x = chars_of(a);
    let y = chars_of(b);
    chars_eq(x.as_slice(), y.as_slice())
}

/// The pieces of `s` between occurrences of `sep`, empty pieces included (`str::split`).
pub open spec fn split_on(s: Seq<char>, sep: char) -> Seq<Seq<char>>
    decreases s.len(),
{
    if s.len() == 0 {
        seq![Seq::empty()]
    } else {
        let p = split_on(s.drop_last(), sep);
        if s.last() == sep {
            p.push(Seq::empty())
        } else {
            p.update(p.len() - 1, p.last().push(s.last()))
        }
    }
}

/// Splitting always gives at least one piece.
pub proof fn lemma_split_on_nonempty(s: Seq<char>, sep: char)
    ensures
        split_on(s, sep).len() >= 1,
    decreases s.len(),
{
    if s.len() > 0 {
        lemma_split_on_nonempty(s.drop_last(), sep);
    }
}

/// Splitting a sequence that ends with a given character.
pub proof fn lemma_split_on_push(s: Seq<char>, c: char, sep: char)
    ensures
        split_on(s.push(c), sep) == if c == sep {
            split_on(s, sep).push(Seq::empty())
        } else {
            let p = split_on(s, sep);
            p.update(p.len() - 1, p.last().push(c))
        },
{
    assert(s.push(c).drop_last() =~= s);
}

/// Splitting after appending characters other than the separator extends the last piece.
pub proof fn lemma_split_on_append(x: Seq<char>, y: Seq<char>, sep: char)
    requires
        forall|i: int| 0 <= i < y.len() ==> #[trigger] y[i] != sep,
    ensures
        split_on(x + y, sep) == {
            let p = split_on(x, sep);
            p.update(p.len() - 1, p.last() + y)
        },
    decreases y.len(),
{
    lemma_split_on_nonempty(x, sep);
    if y.len() == 0 {
        let p = split_on(x, sep);
        assert(x + y =~= x);
        assert(p.last() + y =~= p.last());
        assert(p.update(p.len() - 1, p.last() + y) =~= p);
    } else {
        let y0 = y.drop_last();
        lemma_split_on_append(x, y0, sep);
        assert((x + y).drop_last() =~= x + y0);
        assert((x + y).last() == y.last());
        let p = split_on(x, sep);
        let q = p.update(p.len() - 1, p.last() + y0);
        assert(q.last() == p.last() + y0);
        assert(q.last().push(y.last()) =~= p.last() + y);
        assert(q.update(q.len() - 1, q.last().push(y.last())) =~= p.update(p.len() - 1, p.last() + y));
    }
}

/// `s` begins with `p`.
pub open spec fn starts_with(s: Seq<char>, p: Seq<char>) -> bool {
    p.len() <= s.len() && s.take(p.len() as int) == p
}

/// `s` ends with `p`.
pub open spec fn ends_with(s: Seq<char>, p: Seq<char>) -> bool {
    p.len() <= s.len() && s.skip(s.len() - p.len()) == p
}

/// `p` occurs somewhere in `s`.
pub open spec fn contains(s: Seq<char>, p: Seq<char>) -> bool {
    exists|i: int| 0 <= i <= s.len() - p.len() && #[trigger] s.subrange(i, i + p.len()) == p
}

/// Whether `p` is a prefix of `s`.
pub fn chars_starts_with(s: &[char], p: &[char]) -> (res: bool)
    ensures
        res == starts_with(s@, p@),
{
    if p.len() > s.len() {
        return false;
    }
    let n = p.len();
    for i in 0..n
        invariant
            n == p@.len(),
            n <= s@.len(),
            forall|j: int| 0 <= j < i ==> s@[j] == p@[j],
    {
        if s[i] != p[i] {
            return false;
        }
    }
    assert(s@.take(n as int) =~= p@);
    true
}

/// Whether `p` is a suffix of `s`.
pub fn chars_ends_with(s: &[char], p: &[char]) -> (res: bool)
    ensures
        res == ends_with(s@, p@),
{
    if p.len() > s.len() {
        return false;
    }
    let n = p.len();
    let off = s.len() - n;
    for i in 0..n
        invariant
            n == p@.len(),
            off + n == s.len(),
            i <= n,
            forall|j: int| 0 <= j < i ==> s@[off + j] == p@[j],
    {
        if s[off + i] != p[i] {
            return false;
        }
    }
    assert(s@.skip(off as int) =~= p@);
    true
}

/// Whether `p` occurs in `s`.
pub fn chars_contains(s: &[char], p: &[char]) -> (res: bool)
    ensures
        res == contains(s@, p@),
{
    if p.len() > s.len() {
        return false;
    }
    let last = s.len() - p.len();
    let n = p.len();
    let mut i: usize = 0;
    loop
        invariant
            last + n == s.len(),
            n == p@.len(),
            i <= last,
            forall|k: int| 0 <= k < i ==> #[trigger] s@.subrange(k, k + p@.len()) != p@,
        ensures
            forall|k: int| 0 <= k <= last ==> #[trigger] s@.subrange(k, k + p@.len()) != p@,
        decreases last - i,
    {
        let mut j: usize = 0;
        let mut same = true;
        while j < n
            invariant
                n == p@.len(),
                i <= last,
                last + n == s.len(),
                j <= n,
                same == (forall|m: int| 0 <= m < j ==> s@[i + m] == p@[m]),
            decreases n - j,
        {
            if s[i + j] != p[j] {
                same = false;
            }
            j = j + 1;
        }
        if same {
            assert(s@.subrange(i as int, i + n) =~= p@);
            return true;
        }
        assert(s@.subrange(i as int, i + n) != p@) by {
            let m = choose|m: int| 0 <= m < n && s@[i + m] != p@[m];
            assert(s@.subrange(i as int, i + n)[m] == s@[i + m]);
        }
        if i == last {
            break;
        }
        i = i + 1;
    }
    false
}

/// The `White_Space` characters of Unicode, which `char::is_whitespace` recognises.
pub open spec fn is_whitespace(c: char) -> bool {
    let u = c as u32;
    ||| (0x09 <= u <= 0x0D)
    ||| u == 0x20
    ||| u == 0x85
    ||| u == 0xA0
    ||| u == 0x1680
    ||| (0x2000 <= u <= 0x200A)
    ||| u == 0x2028
    ||| u == 0x2029
    ||| u == 0x202F
    ||| u == 0x205F
    ||| u == 0x3000
}

/// The control characters (general category `Cc`), which `char::is_control` recognises.
pub open spec fn is_control(c: char) -> bool {
    let u = c as u32;
    u <= 0x1F || (0x7F <= u <= 0x9F)
}

/// Whether a character is Unicode white space.
pub fn is_whitespace_char(c: char) -> (res: bool)
    ensures
        res == is_whitespace(c),
{
    let u = c as u32;
    (0x09 <= u && u <= 0x0D) || u == 0x20 || u == 0x85 || u == 0xA0 || u == 0x1680 || (0x2000
        <= u && u <= 0x200A) || u == 0x2028 || u == 0x2029 || u == 0x202F || u == 0x205F || u
        == 0x3000
}

/// Whether a character is a control character.
pub fn is_control_char(c: char) -> (res: bool)
    ensures
        res == is_control(c),
{
    let u = c as u32;
    u <= 0x1F || (0x7F <= u && u <= 0x9F)
}

/// Number of leading white-space characters of `s`.
pub open spec fn leading_ws(s: Seq<char>) -> nat
    decreases s.len(),
{
    if s.len() > 0 && is_whitespace(s[0]) {
        1 + leading_ws(s.drop_first())
    } else {
        0
    }
}

/// Number of trailing white-space characters of `s`.
pub open spec fn trailing_ws(s: Seq<char>) -> nat
    decreases s.len(),
{
    if s.len() > 0 && is_whitespace(s.last()) {
        1 + trailing_ws(s.drop_last())
    } else {
        0
    }
}

/// `s` without its leading white space (`str::trim_start`).
pub open spec fn trim_start(s: Seq<char>) -> Seq<char> {
    s.skip(leading_ws(s) as int)
}

/// `s` without its trailing white space (`str::trim_end`).
pub open spec fn trim_end(s: Seq<char>) -> Seq<char> {
    s.take(s.len() - trailing_ws(s))
}

/// `s` without leading and trailing white space (`str::trim`).
pub open spec fn trim(s: Seq<char>) -> Seq<char> {
    trim_end(trim_start(s))
}

/// The leading white space of `s` is exactly its first `leading_ws(s)` characters.
pub proof fn lemma_leading_ws(s: Seq<char>)
    ensures
        leading_ws(s) <= s.len(),
        forall|i: int| 0 <= i < leading_ws(s) ==> is_whitespace(#[trigger] s[i]),
        leading_ws(s) < s.len() ==> !is_whitespace(s[leading_ws(s) as int]),
    decreases s.len(),
{
    if s.len() > 0 && is_whitespace(s[0]) {
        lemma_leading_ws(s.drop_first());
        assert forall|i: int| 0 <= i < leading_ws(s) implies is_whitespace(#[trigger] s[i]) by {
            if i > 0 {
                assert(s[i] == s.drop_first()[i - 1]);
            }
        }
    }
}

/// The trailing white space of `s` is exactly its last `trailing_ws(s)` characters.
pub proof fn lemma_trailing_ws(s: Seq<char>)
    ensures
        trailing_ws(s) <= s.len(),
        forall|i: int| s.len() - trailing_ws(s) <= i < s.len() ==> is_whitespace(#[trigger] s[i]),
        trailing_ws(s) < s.len() ==> !is_whitespace(s[s.len() - trailing_ws(s) - 1]),
    decreases s.len(),
{
    if s.len() > 0 && is_whitespace(s.last()) {
        lemma_trailing_ws(s.drop_last());
        assert forall|i: int| s.len() - trailing_ws(s) <= i < s.len() implies is_whitespace(
            #[trigger] s[i],
        ) by {
            if i < s.len() - 1 {
                assert(s[i] == s.drop_last()[i]);
            }
        }
    }
}

/// Any count `k` of leading white-space characters followed by a non-white-space character
/// (or the end) is `leading_ws`.
pub proof fn lemma_leading_ws_unique(s: Seq<char>, k: int)
    requires
        0 <= k <= s.len(),
        forall|i: int| 0 <= i < k ==> is_whitespace(#[trigger] s[i]),
        k < s.len() ==> !is_whitespace(s[k]),
    ensures
        leading_ws(s) == k,
    decreases k,
{
    if k > 0 {
        assert(is_whitespace(s[0]));
        assert forall|i: int| 0 <= i < k - 1 implies is_whitespace(#[trigger] s.drop_first()[i]) by {
            assert(s.drop_first()[i] == s[i + 1]);
        }
        if k - 1 < s.drop_first().len() {
            assert(s.drop_first()[k - 1] == s[k]);
        }
        lemma_leading_ws_unique(s.drop_first(), k - 1);
    }
}

/// Any count `k` of trailing white-space characters preceded by a non-white-space character
/// (or the start) is `trailing_ws`.
pub proof fn lemma_trailing_ws_unique(s: Seq<char>, k: int)
    requires
        0 <= k <= s.len(),
        forall|i: int| s.len() - k <= i < s.len() ==> is_whitespace(#[trigger] s[i]),
        k < s.len() ==> !is_whitespace(s[s.len() - k - 1]),
    ensures
        trailing_ws(s) == k,
    decreases k,
{
    if k > 0 {
        assert(is_whitespace(s[s.len() - 1]));
        let t = s.drop_last();
        assert forall|i: int| t.len() - (k - 1) <= i < t.len() implies is_whitespace(#[trigger] t[i]) by {
            assert(t[i] == s[i]);
        }
        if k - 1 < t.len() {
            assert(t[t.len() - (k - 1) - 1] == s[s.len() - k - 1]);
        }
        lemma_trailing_ws_unique(t, k - 1);
    }
}

/// The characters of `s` without leading and trailing white space.
pub fn trim_chars(s: &[char]) -> (res: Vec<char>)
    ensures
        res@ == trim(s@),
{
    let n = s.len();
    let mut start: usize = 0;
    while start < n && is_whitespace_char(s[start])
        invariant
            n == s@.len(),
            start <= n,
            forall|i: int| 0 <= i < start ==> is_whitespace(#[trigger] s@[i]),
        decreases n - start,
    {
        start = start + 1;
    }
    proof {
        lemma_leading_ws_unique(s@, start as int);
    }
    let ghost t = s@.skip(start as int);
    let mut end: usize = n;
    while end > start && is_whitespace_char(s[end - 1])
        invariant
            n == s@.len(),
            start <= end <= n,
            t == s@.skip(start as int),
            forall|i: int| end <= i < n ==> is_whitespace(#[trigger] s@[i]),
        decreases end - start,
    {
        end = end - 1;
    }
    proof {
        let k = (n - end) as int;
        assert forall|i: int| t.len() - k <= i < t.len() implies is_whitespace(#[trigger] t[i]) by {
            assert(t[i] == s@[start + i]);
        }
        if k < t.len() {
            assert(t[t.len() - k - 1] == s@[end - 1]);
        }
        lemma_trailing_ws_unique(t, k);
    }
    let mut res: Vec<char> = Vec::new();
    let mut i = start;
    while i < end
        invariant
            start <= i <= end <= n,
            n == s@.len(),
            res@ == s@.subrange(start as int, i as int),
        decreases end - i,
    {
        res.push(s[i]);
        assert(s@.subrange(start as int, i as int).push(s@[i as int]) =~= s@.subrange(
            start as int,
            i + 1,
        ));
        i = i + 1;
    }
    assert(res@ =~= trim(s@));
    res
}

/// A string slice without leading and trailing white space, as an owned string.
pub fn trim_str(s: &str) -> (res: String)
    ensures
        res@ == trim(s@),
{
    let v = chars_of(s);
    let t = trim_chars(v.as_slice());
    string_of(t.as_slice())
}

/// The ASCII digit for `d < 10`.
pub open spec fn digit_char(d: nat) -> char {
    if d == 0 {
        '0'
    } else if d == 1 {
        '1'
    } else if d == 2 {
        '2'
    } else if d == 3 {
        '3'
    } else if d == 4 {
        '4'
    } else if d == 5 {
        '5'
    } else if d == 6 {
        '6'
    } else if d == 7 {
        '7'
    } else if d == 8 {
        '8'
    } else {
        '9'
    }
}

/// Whether `c` is an ASCII digit.
pub open spec fn is_digit(c: char) -> bool {
    '0' <= c <= '9'
}

/// The numeric value of an ASCII digit.
pub open spec fn digit_value(c: char) -> nat {
    ((c as u32) - 48) as nat
}

/// The decimal representation of `n`, without sign or leading zeros (`u32::to_string`).
pub open spec fn decimal(n: nat) -> Seq<char>
    decreases n,
{
    if n < 10 {
        seq![digit_char(n)]
    } else {
        decimal(n / 10).push(digit_char(n % 10))
    }
}

/// The value of a sequence of decimal digits, most significant first.
pub open spec fn digits_value(s: Seq<char>) -> nat
    decreases s.len(),
{
    if s.len() == 0 {
        0
    } else {
        digits_value(s.drop_last()) * 10 + digit_value(s.last())
    }
}

/// Every character of `s` is an ASCII digit.
pub open spec fn all_digits(s: Seq<char>) -> bool {
    forall|i: int| 0 <= i < s.len() ==> is_digit(#[trigger] s[i])
}

/// `s` without one leading `+`.
pub open spec fn unsigned_digits(s: Seq<char>) -> Seq<char> {
    if s.len() > 0 && s[0] == '+' {
        s.drop_first()
    } else {
        s
    }
}

/// The digit characters read back as their values.
pub proof fn lemma_digit_char(d: nat)
    requires
        d < 10,
    ensures
        is_digit(digit_char(d)),
        digit_value(digit_char(d)) == d,
{
}

/// What `str::parse::<u32>` gives: an optional `+` followed by at least one ASCII digit,
/// whose value fits in `u32`.
pub open spec fn parse_u32(s: Seq<char>) -> Option<u32> {
    let d = unsigned_digits(s);
    if d.len() > 0 && all_digits(d) && digits_value(d) <= u32::MAX {
        Some(digits_value(d) as u32)
    } else {
        None
    }
}

/// The ASCII digit of a number below ten.
fn digit_of(d: u32) -> (c: char)
    requires
        d < 10,
    ensures
        c == digit_char(d as nat),
{
    if d == 0 {
        '0'
    } else if d == 1 {
        '1'
    } else if d == 2 {
        '2'
    } else if d == 3 {
        '3'
    } else if d == 4 {
        '4'
    } else if d == 5 {
        '5'
    } else if d == 6 {
        '6'
    } else if d == 7 {
        '7'
    } else if d == 8 {
        '8'
    } else {
        '9'
    }
}

fn decimal_chars(n: u32) -> (res: Vec<char>)
    ensures
        res@ == decimal(n as nat),
    decreases n,
{
    if n < 10 {
        let mut v = Vec::new();
        v.push(digit_of(n));
        v
    } else {
        let mut v = decimal_chars(n / 10);
        v.push(digit_of(n % 10));
        v
    }
}

/// The decimal representation of a number.
pub fn u32_to_decimal(n: u32) -> (res: String)
    ensures
        res@ == decimal(n as nat),
{
    let v = decimal_chars(n);
    string_of(v.as_slice())
}

/// The decimal representation of `n` is made of digits, is not empty, and has value `n`.
pub proof fn lemma_decimal_digits(n: nat)
    ensures
        decimal(n).len() > 0,
        all_digits(decimal(n)),
        digits_value(decimal(n)) == n,
    decreases n,
{
    lemma_digit_char(n % 10);
    if n < 10 {
        lemma_digit_char(n);
        assert(decimal(n).drop_last() =~= Seq::<char>::empty());
        assert(digits_value(Seq::<char>::empty()) == 0);
    } else {
        lemma_decimal_digits(n / 10);
        let s = decimal(n);
        assert(s.last() == digit_char(n % 10));
        assert(n == (n / 10) * 10 + n % 10) by (nonlinear_arith);
        assert(s.len() > 0);
        assert(digits_value(s) == digits_value(s.drop_last()) * 10 + digit_value(s.last()));
        assert(s.drop_last() =~= decimal(n / 10));
        assert forall|i: int| 0 <= i < s.len() implies is_digit(#[trigger] s[i]) by {
            if i < s.len() - 1 {
                assert(s[i] == decimal(n / 10)[i]);
            }
        }
    }
}

/// Reading back the decimal representation of a number gives the number.
pub proof fn lemma_parse_decimal(n: u32)
    ensures
        parse_u32(decimal(n as nat)) == Some(n),
{
    lemma_decimal_digits(n as nat);
    let s = decimal(n as nat);
    assert(is_digit(s[0]));
}

/// The value of a prefix of a digit sequence is at most the value of the whole.
proof fn lemma_digits_value_prefix(s: Seq<char>, i: int)
    requires
        0 <= i <= s.len(),
        all_digits(s),
    ensures
        digits_value(s.take(i)) <= digits_value(s),
    decreases s.len() - i,
{
    if i < s.len() {
        assert(s.take(i + 1).drop_last() =~= s.take(i));
        lemma_digits_value_prefix(s, i + 1);
    } else {
        assert(s.take(i) =~= s);
    }
}

/// Parses a decimal number the way `str::parse::<u32>` does.
pub fn parse_u32_chars(s: &[char]) -> (res: Option<u32>)
    ensures
        res == parse_u32(s@),
{
    let start: usize = if s.len() > 0 && s[0] == '+' {
        1
    } else {
        0
    };
    let ghost d = unsigned_digits(s@);
    assert(d =~= s@.skip(start as int));
    if start >= s.len() {
        return None;
    }
    let n = s.len();
    let mut acc: u64 = 0;
    let mut i = start;
    while i < n
        invariant
            start <= i <= n,
            n == s.len(),
            d == s@.skip(start as int),
            d == unsigned_digits(s@),
            acc <= u32::MAX,
            all_digits(d.take(i - start)),
            acc == digits_value(d.take(i - start)),
        decreases n - i,
    {
        let c = s[i];
        if !('0' <= c && c <= '9') {
            assert(!all_digits(d)) by {
                assert(d[i - start] == c);
                assert(!is_digit(d[i - start]));
            }
            assert(d == unsigned_digits(s@));
            assert(!(d.len() > 0 && all_digits(d) && digits_value(d) <= u32::MAX));
            assert(parse_u32(s@).is_none());
            return None;
        }
        let ghost k = i - start;
        assert(d.take(k + 1).drop_last() =~= d.take(k));
        assert(d.take(k + 1).last() == c);
        acc = acc * 10 + ((c as u32) - 48) as u64;
        assert forall|j: int| 0 <= j < k + 1 implies is_digit(#[trigger] d.take(k + 1)[j]) by {
            if j < k {
                assert(d.take(k + 1)[j] == d.take(k)[j]);
            }
        }
        if acc > 0xFFFF_FFFFu64 {
            proof {
                let ghost all = all_digits(d);
                assert(acc == digits_value(d.take(k + 1)));
                if all {
                    lemma_digits_value_prefix(d, k + 1);
                }
                assert(parse_u32(s@).is_none());
            }
            return None;
        }
        i = i + 1;
    }
    assert(d.take(n - start) =~= d);
    Some(acc as u32)
}

/// Parses a decimal number in a string slice the way `str::parse::<u32>` does.
pub fn parse_u32_str(s: &str) -> (res: Option<u32>)
    ensures
        res == parse_u32(s@),
{
    let v = chars_of(s);
    parse_u32_chars(v.as_slice())
}

/// The pieces joined with `sep` between neighbours (`slice::join`).
pub open spec fn join_with(parts: Seq<Seq<char>>, sep: Seq<char>) -> Seq<char>
    decreases parts.len(),
{
    if parts.len() == 0 {
        Seq::empty()
    } else if parts.len() == 1 {
        parts[0]
    } else {
        join_with(parts.drop_last(), sep) + sep + parts.last()
    }
}

/// The views of a sequence of strings.
pub open spec fn string_views(v: Seq<String>) -> Seq<Seq<char>> {
    v.map_values(|x: String| x@)
}

/// The strings joined with `sep` between neighbours.
pub fn join_strings(parts: &Vec<String>, sep: &str) -> (res: String)
    ensures
        res@ == join_with(string_views(parts@), sep@),
{
    let mut res = String::new();
    let n = parts.len();
    let ghost all = string_views(parts@);
    for i in 0..n
        invariant
            n == parts@.len(),
            all == string_views(parts@),
            res@ == join_with(all.take(i as int), sep@),
    {
        assert(all.take(i + 1).drop_last() =~= all.take(i as int));
        assert(all.take(i + 1).last() == parts@[i as int]@);
        if i > 0 {
            push_str(&mut res, sep);
        } else {
            assert(all.take(0) =~= Seq::<Seq<char>>::empty());
            assert(res@ =~= Seq::<char>::empty());
        }
        push_str(&mut res, parts[i].as_str());
        proof {
            if i == 0 {
                assert(res@ =~= all.take(1)[0]);
            }
        }
    }
    assert(all.take(n as int) =~= all);
    res
}

/// What `char::is_alphanumeric` gives: whether a character is alphabetic or numeric in
/// Unicode.
pub uninterp spec fn is_alphanumeric(c: char) -> bool;

/// When some index below `n` has a property, a least such index exists.
pub proof fn lemma_least_index(p: spec_fn(int) -> bool, n: int)
    requires
        exists|i: int| 0 <= i < n && #[trigger] p(i),
    ensures
        exists|i: int| 0 <= i < n && #[trigger] p(i) && forall|j: int| 0 <= j < i ==> !#[trigger] p(j),
    decreases n,
{
    if exists|i: int| 0 <= i < n - 1 && #[trigger] p(i) {
        lemma_least_index(p, n - 1);
        let i = choose|i: int| 0 <= i < n - 1 && #[trigger] p(i) && forall|j: int| 0 <= j < i ==> !#[trigger] p(j);
        assert(0 <= i < n && p(i));
    } else {
        let w = choose|i: int| 0 <= i < n && #[trigger] p(i);
        assert(w == n - 1);
        assert forall|j: int| 0 <= j < n - 1 implies !#[trigger] p(j) by {}
        assert(p(n - 1));
    }
}

/// An ASCII character.
pub open spec fn ascii_char(c: char) -> bool {
    (c as u32) < 128
}

/// Text made of ASCII characters only.
pub open spec fn ascii_text(s: Seq<char>) -> bool {
    forall|i: int| 0 <= i < s.len() ==> ascii_char(#[trigger] s[i])
}

/// An ASCII letter or digit.
pub open spec fn ascii_alphanumeric(c: char) -> bool {
    let u = c as u32;
    (48 <= u <= 57) || (65 <= u <= 90) || (97 <= u <= 122)
}

/// An ASCII capital letter.
pub open spec fn ascii_upper(c: char) -> bool {
    65 <= (c as u32) <= 90
}

/// A character with an ASCII capital letter replaced by its small letter.
pub open spec fn ascii_lower(c: char) -> char {
    if ascii_upper(c) {
        ((c as u32) + 32) as char
    } else {
        c
    }
}

/// Calls `char::is_alphanumeric`: alphabetic or numeric in Unicode. Its Unicode tables are
/// only named here (`is_alphanumeric`); of ASCII characters it states that exactly the
/// letters and digits are alphanumeric.
#[verifier::external_body]
pub(crate) fn char_is_alphanumeric(c: char) -> (res: bool)
    ensures
        res == is_alphanumeric(c),
        ascii_char(c) ==> (res == ascii_alphanumeric(c)),
{
    c.is_alphanumeric()
}

/// The pieces of `s` between white-space characters, empty pieces included.
pub open spec fn split_ws(s: Seq<char>) -> Seq<Seq<char>>
    decreases s.len(),
{
    if s.len() == 0 {
        seq![Seq::empty()]
    } else {
        let p = split_ws(s.drop_last());
        if is_whitespace(s.last()) {
            p.push(Seq::empty())
        } else {
            p.update(p.len() - 1, p.last().push(s.last()))
        }
    }
}

/// The non-empty pieces, in order.
pub open spec fn nonempty_pieces(p: Seq<Seq<char>>) -> Seq<Seq<char>>
    decreases p.len(),
{
    if p.len() == 0 {
        Seq::empty()
    } else if p.last().len() == 0 {
        nonempty_pieces(p.drop_last())
    } else {
        nonempty_pieces(p.drop_last()).push(p.last())
    }
}

/// The words of `s`: its maximal runs of non-white-space characters
/// (`str::split_whitespace`).
pub open spec fn words(s: Seq<char>) -> Seq<Seq<char>> {
    nonempty_pieces(split_ws(s))
}

proof fn lemma_split_ws_nonempty(s: Seq<char>)
    ensures
        split_ws(s).len() >= 1,
    decreases s.len(),
{
    if s.len() > 0 {
        lemma_split_ws_nonempty(s.drop_last());
    }
}

/// The words of a string.
pub fn split_whitespace(s: &str) -> (res: Vec<String>)
    ensures
        string_views(res@) == words(s@),
{
    let v = chars_of(s);
    let n = v.len();
    let mut res: Vec<String> = Vec::new();
    let mut cur: Vec<char> = Vec::new();
    let ghost mut done: Seq<Seq<char>> = Seq::empty();
    assert(v@.take(0) =~= Seq::<char>::empty());
    assert(split_ws(Seq::<char>::empty()) =~= done.push(cur@));
    for i in 0..n
        invariant
            n == v@.len(),
            split_ws(v@.take(i as int)) == done.push(cur@),
            string_views(res@) == nonempty_pieces(done),
    {
        let c = v[i];
        proof {
            assert(v@.take(i + 1) =~= v@.take(i as int).push(c));
            assert(v@.take(i as int).push(c).drop_last() =~= v@.take(i as int));
            lemma_split_ws_nonempty(v@.take(i as int));
        }
        if is_whitespace_char(c) {
            let ghost old_done = done;
            let ghost piece = cur@;
            if cur.len() > 0 {
                let w = string_of(cur.as_slice());
                proof {
                    assert(string_views(res@.push(w)) =~= string_views(res@).push(w@));
                }
                res.push(w);
            }
            cur = Vec::new();
            proof {
                done = old_done.push(piece);
                assert(done.drop_last() =~= old_done);
            }
            assert(split_ws(v@.take(i + 1)) =~= done.push(cur@));
        } else {
            cur.push(c);
            assert(split_ws(v@.take(i + 1)) =~= done.push(cur@));
        }
    }
    assert(v@.take(n as int) =~= v@);
    let ghost pieces = done.push(cur@);
    assert(pieces.drop_last() =~= done);
    if cur.len() > 0 {
        let w = string_of(cur.as_slice());
        proof {
            assert(string_views(res@.push(w)) =~= string_views(res@).push(w@));
        }
        res.push(w);
    }
    res
}

/// Splitting after appending characters that are not white space extends the last piece.
proof fn lemma_split_ws_append(x: Seq<char>, y: Seq<char>)
    requires
        forall|i: int| 0 <= i < y.len() ==> !is_whitespace(#[trigger] y[i]),
    ensures
        split_ws(x + y) == {
            let p = split_ws(x);
            p.update(p.len() - 1, p.last() + y)
        },
    decreases y.len(),
{
    lemma_split_ws_nonempty(x);
    if y.len() == 0 {
        let p = split_ws(x);
        assert(x + y =~= x);
        assert(p.last() + y =~= p.last());
        assert(p.update(p.len() - 1, p.last() + y) =~= p);
    } else {
        let y0 = y.drop_last();
        lemma_split_ws_append(x, y0);
        assert((x + y).drop_last() =~= x + y0);
        assert((x + y).last() == y.last());
        let p = split_ws(x);
        let q = p.update(p.len() - 1, p.last() + y0);
        assert(q.last() == p.last() + y0);
        assert(q.last().push(y.last()) =~= p.last() + y);
        assert(q.update(q.len() - 1, q.last().push(y.last())) =~= p.update(p.len() - 1, p.last() + y));
    }
}

/// Splitting `x`, a space, then a word gives the pieces of `x` followed by the word.
proof fn lemma_split_ws_word(x: Seq<char>, y: Seq<char>)
    requires
        forall|i: int| 0 <= i < y.len() ==> !is_whitespace(#[trigger] y[i]),
    ensures
        split_ws(x + seq![' '] + y) == split_ws(x).push(y),
{
    let xs = x + seq![' '];
    assert(xs.drop_last() =~= x);
    assert(is_whitespace(' '));
    assert(split_ws(xs) == split_ws(x).push(Seq::empty()));
    lemma_split_ws_append(xs, y);
    let p = split_ws(xs);
    assert(Seq::<char>::empty() + y =~= y);
    assert(p.update(p.len() - 1, p.last() + y) =~= split_ws(x).push(y));
}

/// A word: not empty, and free of white space.
pub open spec fn is_word(w: Seq<char>) -> bool {
    w.len() > 0 && forall|i: int| 0 <= i < w.len() ==> !is_whitespace(#[trigger] w[i])
}

/// Joining words with single spaces and splitting the result at white space gives the
/// words back.
pub proof fn lemma_words_of_joined(ws: Seq<Seq<char>>)
    requires
        forall|i: int| 0 <= i < ws.len() ==> is_word(#[trigger] ws[i]),
    ensures
        words(join_with(ws, " "@)) == ws,
    decreases ws.len(),
{
    reveal_strlit(" ");
    assert(" "@ =~= seq![' ']);
    if ws.len() == 0 {
        let e = Seq::<char>::empty();
        assert(split_ws(e) == seq![e]);
        assert(seq![e].drop_last() =~= Seq::<Seq<char>>::empty());
        assert(nonempty_pieces(Seq::<Seq<char>>::empty()) == Seq::<Seq<char>>::empty());
        assert(words(e) =~= Seq::<Seq<char>>::empty());
    } else if ws.len() == 1 {
        let w = ws[0];
        assert(is_word(w));
        lemma_split_ws_append(Seq::empty(), w);
        assert(Seq::<char>::empty() + w =~= w);
        let p = split_ws(Seq::<char>::empty());
        assert(p.update(0, p.last() + w) =~= seq![w]);
        assert(seq![w].drop_last() =~= Seq::<Seq<char>>::empty());
        assert(nonempty_pieces(Seq::<Seq<char>>::empty()) == Seq::<Seq<char>>::empty());
        assert(seq![w].last() == w);
        assert(nonempty_pieces(seq![w]) =~= Seq::<Seq<char>>::empty().push(w));
        assert(Seq::<Seq<char>>::empty().push(w) =~= seq![w]);
        assert(ws =~= seq![w]);
    } else {
        let rest = ws.drop_last();
        let w = ws.last();
        assert(is_word(ws[ws.len() - 1]));
        assert forall|i: int| 0 <= i < rest.len() implies is_word(#[trigger] rest[i]) by {
            assert(rest[i] == ws[i]);
        }
        lemma_words_of_joined(rest);
        let j = join_with(rest, " "@);
        assert(join_with(ws, " "@) == j + " "@ + w);
        lemma_split_ws_word(j, w);
        let p = split_ws(j).push(w);
        assert(p.drop_last() =~= split_ws(j));
        assert(nonempty_pieces(p) == words(j).push(w));
        assert(ws =~= rest.push(w));
    }
}

/// Every piece of a split at white space is free of white space.
proof fn lemma_split_ws_pieces(s: Seq<char>)
    ensures
        forall|k: int, i: int|
            0 <= k < split_ws(s).len() && 0 <= i < split_ws(s)[k].len() ==> !is_whitespace(#[trigger] split_ws(s)[k][i]),
    decreases s.len(),
{
    if s.len() > 0 {
        lemma_split_ws_pieces(s.drop_last());
        lemma_split_ws_nonempty(s.drop_last());
    }
}

proof fn lemma_nonempty_words(p: Seq<Seq<char>>)
    requires
        forall|k: int, i: int| 0 <= k < p.len() && 0 <= i < p[k].len() ==> !is_whitespace(#[trigger] p[k][i]),
    ensures
        forall|k: int| 0 <= k < nonempty_pieces(p).len() ==> is_word(#[trigger] nonempty_pieces(p)[k]),
    decreases p.len(),
{
    if p.len() > 0 {
        let q = p.drop_last();
        assert forall|k: int, i: int| 0 <= k < q.len() && 0 <= i < q[k].len() implies !is_whitespace(#[trigger] q[k][i]) by {
            assert(q[k] == p[k]);
        }
        lemma_nonempty_words(q);
        let l = p.last();
        assert forall|i: int| 0 <= i < l.len() implies !is_whitespace(#[trigger] l[i]) by {
            assert(l == p[p.len() - 1]);
        }
        let r = nonempty_pieces(q);
        if l.len() > 0 {
            assert(nonempty_pieces(p) == r.push(l));
            assert forall|k: int| 0 <= k < nonempty_pieces(p).len() implies is_word(#[trigger] nonempty_pieces(p)[k]) by {
                if k < r.len() {
                    assert(nonempty_pieces(p)[k] == r[k]);
                }
            }
        }
    }
}

/// The words of a text are words: not empty, free of white space.
pub proof fn lemma_words_are_words(s: Seq<char>)
    ensures
        forall|k: int| 0 <= k < words(s).len() ==> is_word(#[trigger] words(s)[k]),
{
    lemma_split_ws_pieces(s);
    lemma_nonempty_words(split_ws(s));
}

/// Showing the words of a text joined by spaces and splitting that again gives the same
/// words.
pub proof fn lemma_words_join_words(s: Seq<char>)
    ensures
        words(join_with(words(s), " "@)) == words(s),
{
    lemma_words_are_words(s);
    lemma_words_of_joined(words(s));
}

/// Trimming twice is trimming once.
pub proof fn lemma_trim_idempotent(s: Seq<char>)
    ensures
        trim(trim(s)) == trim(s),
{
    let a = trim_start(s);
    lemma_leading_ws(s);
    lemma_trailing_ws(a);
    let t = trim(s);
    assert(t == a.take(a.len() - trailing_ws(a)));
    if t.len() > 0 {
        assert(t[0] == a[0]);
        assert(a[0] == s[leading_ws(s) as int]);
        assert(t[t.len() - 1] == a[a.len() - trailing_ws(a) - 1]);
    }
    lemma_leading_ws_unique(t, 0);
    assert(t.skip(0) =~= t);
    lemma_trailing_ws_unique(t, 0);
    assert(t.take(t.len() as int) =~= t);
}

/// What `str::to_lowercase` gives for the characters `s`.
pub uninterp spec fn lowercase(s: Seq<char>) -> Seq<char>;

/// Calls `str::to_lowercase`: the string lower-cased by the Unicode rules, where a
/// character may become several and a capital sigma's form depends on the characters
/// around it (final sigma). The result is only named here (`lowercase`).
/// Of ASCII text it states that each capital letter becomes its small letter and every
/// other character stays.
#[verifier::external_body]
pub(crate) fn to_lowercase(s: &str) -> (res: String)
    ensures
        res@ == lowercase(s@),
        ascii_text(s@) ==> res@ == s@.map_values(|c: char| ascii_lower(c)),
{
    s.to_lowercase()
}

} // verus!
