use vstd::prelude::*;
use vstd::std_specs::iter::IteratorSpec;
use vstd::string::spec_iter;

verus! {

/// Whether a character has the Unicode `White_Space` property, which `char::is_whitespace`
/// tests: U+0009 to U+000D, U+0020, U+0085, U+00A0, U+1680, U+2000 to U+200A, U+2028,
/// U+2029, U+202F, U+205F and U+3000.
pub open spec fn unicode_whitespace(c: char) -> bool {
    let u = c as u32;
    ||| 9 <= u <= 13
    ||| u == 0x20
    ||| u == 0x85
    ||| u == 0xA0
    ||| u == 0x1680
    ||| 0x2000 <= u <= 0x200A
    ||| u == 0x2028
    ||| u == 0x2029
    ||| u == 0x202F
    ||| u == 0x205F
    ||| u == 0x3000
}

/// What `str::to_lowercase` makes of a string.
pub uninterp spec fn unicode_lowercase(s: Seq<char>) -> Seq<char>;

/// Whether `c` is whitespace, as `char::is_whitespace` tells: whether it has the Unicode
/// `White_Space` property.
pub fn is_whitespace(c: char) -> (b: bool)
    ensures
        b == unicode_whitespace(c),
{
    let u = c as u32;
    (9 <= u && u <= 13) || u == 0x20 || u == 0x85 || u == 0xA0 || u == 0x1680 || (0x2000 <= u
        && u <= 0x200A) || u == 0x2028 || u == 0x2029 || u == 0x202F || u == 0x205F || u == 0x3000
}

/// Calls `str::to_lowercase`; the result is named `unicode_lowercase` of the input and
/// not spelled out (Unicode case mapping may change the length of the string).
#[verifier::external_body]
pub fn to_lowercase(s: &str) -> (r: String)
    ensures
        r@ == unicode_lowercase(s@),
{
    s.to_lowercase()
}

/// Builds a `String` from its characters (`Iterator::collect`).
#[verifier::external_body]
pub fn string_from_chars(v: &Vec<char>) -> (s: String)
    ensures
        s@ == v@,
{
    v.iter().collect()
}

/// `s` without its leading characters that are whitespace.
pub open spec fn trim_left(s: Seq<char>) -> Seq<char>
    decreases s.len(),
{
    if s.len() > 0 && unicode_whitespace(s[0]) {
        trim_left(s.drop_first())
    } else {
        s
    }
}

/// `s` without its trailing characters that are whitespace.
pub open spec fn trim_right(s: Seq<char>) -> Seq<char>
    decreases s.len(),
{
    if s.len() > 0 && unicode_whitespace(s.last()) {
        trim_right(s.drop_last())
    } else {
        s
    }
}

/// `s` without leading and trailing whitespace, as `str::trim` gives it.
pub open spec fn trimmed(s: Seq<char>) -> Seq<char> {
    trim_right(trim_left(s))
}

/// The value of a decimal integer literal: an optional `+` or `-` sign followed by one
/// or more ASCII digits and nothing else; `None` for any other text.
pub open spec fn integer_literal(s: Seq<char>) -> Option<int> {
    if s.len() > 0 && (s[0] == '+' || s[0] == '-') {
        match digits_value(s.drop_first()) {
            Some(v) => Some(if s[0] == '-' { -(v as int) } else { v as int }),
            None => None,
        }
    } else {
        match digits_value(s) {
            Some(v) => Some(v as int),
            None => None,
        }
    }
}

/// The value of a non-empty sequence of ASCII digits; `None` if it is empty or holds
/// another character.
pub open spec fn digits_value(s: Seq<char>) -> Option<nat>
    decreases s.len(),
{
    if s.len() == 0 {
        None
    } else if !('0' <= s.last() && s.last() <= '9') {
        None
    } else {
        let d = (s.last() as int - '0' as int) as nat;
        if s.len() == 1 {
            Some(d)
        } else {
            match digits_value(s.drop_last()) {
                Some(v) => Some(10 * v + d),
                None => None,
            }
        }
    }
}

/// The message that `str::parse::<isize>` gives (through `Display`) when it fails on `s`.
pub uninterp spec fn isize_parse_error(s: Seq<char>) -> Seq<char>;

/// Calls `str::parse::<isize>` and displays its error. As the standard library documents,
/// the text must be an optional sign followed by digits only, with a value that fits in
/// `isize`; the error message is named `isize_parse_error` and not spelled out.
#[verifier::external_body]
pub fn parse_isize(s: &str) -> (r: Result<isize, String>)
    ensures
        match r {
            Ok(v) => integer_literal(s@) == Some(v as int),
            Err(e) => !(integer_literal(s@) matches Some(n) && isize::MIN <= n <= isize::MAX)
                && e@ == isize_parse_error(s@),
        },
{
    match s.parse::<isize>() {
        Ok(v) => Ok(v),
        Err(e) => Err(format!("{e}")),
    }
}

/// `s` without leading and trailing whitespace.
pub fn trim(s: &Vec<char>) -> (r: Vec<char>)
    ensures
        r@ == trimmed(s@),
{
    let ghost all = s@;
    let mut i: usize = 0;
    assert(all.skip(0) =~= all);
    while i < s.len() && is_whitespace(s[i])
        invariant
            i <= s.len(),
            s@ == all,
            trim_left(all) == trim_left(all.skip(i as int)),
        decreases s.len() - i,
    {
        proof {
            assert(all.skip(i as int).drop_first() =~= all.skip(i + 1));
        }
        i = i + 1;
    }
    let mut j: usize = s.len();
    proof {
        assert(trim_left(all.skip(i as int)) == all.skip(i as int));
        assert(all.subrange(i as int, j as int) =~= all.skip(i as int));
    }
    while j > i && is_whitespace(s[j - 1])
        invariant
            i <= j <= s.len(),
            s@ == all,
            trimmed(all) == trim_right(all.subrange(i as int, j as int)),
        decreases j,
    {
        proof {
            assert(all.subrange(i as int, j as int).drop_last() =~= all.subrange(
                i as int,
                j - 1,
            ));
        }
        j = j - 1;
    }
    let mut r: Vec<char> = Vec::new();
    let mut k: usize = i;
    while k < j
        invariant
            i <= k <= j <= s.len(),
            s@ == all,
            r@ == all.subrange(i as int, k as int),
        decreases j - k,
    {
        r.push(s[k]);
        proof {
            assert(all.subrange(i as int, k + 1) =~= all.subrange(i as int, k as int).push(
                all[k as int],
            ));
        }
        k = k + 1;
    }
    r
}

/// The characters of a string, in order.
pub fn chars_of(s: &str) -> (v: Vec<char>)
    ensures
        v@ == s@,
{
    let mut v: Vec<char> = Vec::new();
    for c in it: s.chars()
        invariant
            it.seq() == spec_iter(s).remaining(),
            v@ == it.seq().take(it.index() as int),
    {
        v.push(c);
        proof {
            assert(it.seq().take(it.index() + 1) == it.seq().take(it.index() as int).push(c));
        }
    }
    proof {
        let all = spec_iter(s).remaining();
        assert(all.take(all.len() as int) == all);
    }
    v
}

/// Appends the characters of `extra` to `v`.
pub fn push_all(v: &mut Vec<char>, src: &Vec<char>)
    ensures
        final(v)@ == old(v)@ + src@,
{
    let ghost extra = src@;
    let mut i: usize = 0;
    while i < src.len()
        invariant
            src@ == extra,
            i <= src.len(),
            v@ == old(v)@ + extra.take(i as int),
        decreases src.len() - i,
    {
        v.push(src[i]);
        proof {
            assert(extra.take(i + 1) == extra.take(i as int).push(src@[i as int]));
        }
        i = i + 1;
    }
    proof {
        assert(extra.take(extra.len() as int) == extra);
    }
}

/// The decimal digit for a value below ten.
pub open spec fn digit_char(d: nat) -> char {
    if d == 0 { '0' }
    else if d == 1 { '1' }
    else if d == 2 { '2' }
    else if d == 3 { '3' }
    else if d == 4 { '4' }
    else if d == 5 { '5' }
    else if d == 6 { '6' }
    else if d == 7 { '7' }
    else if d == 8 { '8' }
    else { '9' }
}

/// The decimal representation of a natural number, without leading zeros ("0" for zero).
pub open spec fn decimal(n: nat) -> Seq<char>
    decreases n,
{
    if n < 10 {
        seq![digit_char(n)]
    } else {
        decimal(n / 10).push(digit_char(n % 10))
    }
}

/// `count` copies of the character `c`.
pub open spec fn repeat_char(c: char, count: nat) -> Seq<char> {
    Seq::new(count, |i: int| c)
}

/// The text that `format!("{:0w$}", n)` gives for an integer `n`: its decimal digits,
/// preceded by a minus sign when negative, zero-padded after the sign to `w` characters.
pub open spec fn zero_padded(n: int, w: nat) -> Seq<char> {
    let digits = decimal(if n < 0 { (-n) as nat } else { n as nat });
    let sign: Seq<char> = if n < 0 { seq!['-'] } else { Seq::empty() };
    let pad: int = w - sign.len() - digits.len();
    sign + repeat_char('0', if pad > 0 { pad as nat } else { 0 }) + digits
}

pub open spec fn pow10(k: nat) -> nat
    decreases k,
{
    if k == 0 { 1 } else { 10 * pow10((k - 1) as nat) }
}

proof fn lemma_decimal_len(n: nat, k: nat)
    requires
        k >= 1,
        n < pow10(k),
    ensures
        1 <= decimal(n).len() <= k,
    decreases n,
{
    if n >= 10 {
        assert(k >= 2) by {
            if k == 1 {
                assert(pow10(1) == 10) by { reveal_with_fuel(pow10, 2); }
            }
        }
        assert(n / 10 < pow10((k - 1) as nat));
        lemma_decimal_len(n / 10, (k - 1) as nat);
    }
}

proof fn lemma_u64_decimal_len(n: u64)
    ensures
        1 <= decimal(n as nat).len() <= 20,
{
    assert(pow10(20) == 100000000000000000000) by { reveal_with_fuel(pow10, 21); }
    lemma_decimal_len(n as nat, 20);
}

fn digit_of(d: u64) -> (c: char)
    requires
        d < 10,
    ensures
        c == digit_char(d as nat),
{
    if d == 0 { '0' }
    else if d == 1 { '1' }
    else if d == 2 { '2' }
    else if d == 3 { '3' }
    else if d == 4 { '4' }
    else if d == 5 { '5' }
    else if d == 6 { '6' }
    else if d == 7 { '7' }
    else if d == 8 { '8' }
    else { '9' }
}

/// The decimal digits of `n`.
pub fn decimal_digits(n: u64) -> (v: Vec<char>)
    ensures
        v@ == decimal(n as nat),
    decreases n,
{
    if n < 10 {
        let mut v = Vec::new();
        v.push(digit_of(n));
        v
    } else {
        let mut v = decimal_digits(n / 10);
        v.push(digit_of(n % 10));
        v
    }
}

/// `format!("{:0w$}", n)` for a signed integer.
pub fn format_zero_padded(n: i64, w: usize) -> (v: Vec<char>)
    ensures
        v@ == zero_padded(n as int, w as nat),
{
    let magnitude: u64 = if n < 0 {
        if n == i64::MIN { 9223372036854775808u64 } else { (-n) as u64 }
    } else {
        n as u64
    };
    let digits = decimal_digits(magnitude);
    proof { lemma_u64_decimal_len(magnitude); }
    let mut v: Vec<char> = Vec::new();
    if n < 0 {
        v.push('-');
    }
    let used: usize = v.len() + digits.len();
    if used < w {
        let mut k: usize = 0;
        while k < w - used
            invariant
                used < w,
                k <= w - used,
                v@.len() == (if n < 0 { 1int } else { 0int }) + k,
                n < 0 ==> v@[0] == '-',
                forall|i: int| (if n < 0 { 1int } else { 0int }) <= i < v@.len() ==> v@[i] == '0',
            decreases w - used - k,
        {
            v.push('0');
            k = k + 1;
        }
    }
    let ghost before = v@;
    push_all(&mut v, &digits);
    proof {
        let sign: Seq<char> = if n < 0 { seq!['-'] } else { Seq::empty() };
        let dg = decimal(if n < 0 { (-n) as nat } else { n as nat });
        assert(dg == decimal(magnitude as nat));
        let pad: int = w - sign.len() - dg.len();
        let padding = repeat_char('0', if pad > 0 { pad as nat } else { 0 });
        assert(before == sign + padding);
    }
    v
}

/// `format!("{:0w$}", n)` for an unsigned integer.
pub fn format_zero_padded_unsigned(n: u64, w: usize) -> (v: Vec<char>)
    ensures
        v@ == zero_padded(n as int, w as nat),
{
    let digits = decimal_digits(n);
    proof { lemma_u64_decimal_len(n); }
    let mut v: Vec<char> = Vec::new();
    let used: usize = digits.len();
    if used < w {
        let mut k: usize = 0;
        while k < w - used
            invariant
                used < w,
                k <= w - used,
                v@ == repeat_char('0', k as nat),
            decreases w - used - k,
        {
            v.push('0');
            proof {
                assert(v@ =~= repeat_char('0', (k + 1) as nat));
            }
            k = k + 1;
        }
    }
    let ghost before = v@;
    push_all(&mut v, &digits);
    proof {
        let pad: int = w - digits@.len();
        let padding = repeat_char('0', if pad > 0 { pad as nat } else { 0 });
        assert(before =~= padding);
        assert(Seq::<char>::empty() + padding + digits@ =~= v@);
    }
    v
}

/// Lexicographic order of texts by character code: the order of `String`'s `Ord`.
pub open spec fn text_le(a: Seq<char>, b: Seq<char>) -> bool
    decreases a.len(),
{
    if a.len() == 0 {
        true
    } else if b.len() == 0 {
        false
    } else if (a[0] as int) < (b[0] as int) {
        true
    } else if (a[0] as int) > (b[0] as int) {
        false
    } else {
        text_le(a.drop_first(), b.drop_first())
    }
}

pub proof fn lemma_text_le_total(a: Seq<char>, b: Seq<char>)
    ensures
        text_le(a, b) || text_le(b, a),
    decreases a.len(),
{
    if a.len() > 0 && b.len() > 0 && a[0] == b[0] {
        lemma_text_le_total(a.drop_first(), b.drop_first());
    }
}

pub proof fn lemma_text_le_antisymmetric(a: Seq<char>, b: Seq<char>)
    requires
        text_le(a, b),
        text_le(b, a),
    ensures
        a == b,
    decreases a.len(),
{
    if a.len() > 0 && b.len() > 0 {
        lemma_text_le_antisymmetric(a.drop_first(), b.drop_first());
        assert(a =~= seq![a[0]] + a.drop_first());
        assert(b =~= seq![b[0]] + b.drop_first());
    } else {
        assert(a =~= b);
    }
}

pub proof fn lemma_text_le_transitive(a: Seq<char>, b: Seq<char>, c: Seq<char>)
    requires
        text_le(a, b),
        text_le(b, c),
    ensures
        text_le(a, c),
    decreases a.len(),
{
    if a.len() > 0 && b.len() > 0 && c.len() > 0 && a[0] == b[0] && b[0] == c[0] {
        lemma_text_le_transitive(a.drop_first(), b.drop_first(), c.drop_first());
    }
}

pub proof fn lemma_text_le_reflexive(a: Seq<char>)
    ensures
        text_le(a, a),
    decreases a.len(),
{
    if a.len() > 0 {
        lemma_text_le_reflexive(a.drop_first());
    }
}

/// Whether `a` comes before or equals `b` in the order of `String`.
pub fn text_less_eq(a: &Vec<char>, b: &Vec<char>) -> (r: bool)
    ensures
        r == text_le(a@, b@),
{
    let mut i: usize = 0;
    assert(a@.skip(0) =~= a@);
    assert(b@.skip(0) =~= b@);
    while i < a.len() && i < b.len()
        invariant
            i <= a@.len(),
            i <= b@.len(),
            text_le(a@, b@) == text_le(a@.skip(i as int), b@.skip(i as int)),
        decreases a.len() - i,
    {
        if a[i] < b[i] {
            return true;
        }
        if a[i] > b[i] {
            return false;
        }
        proof {
            assert(a@.skip(i as int).drop_first() =~= a@.skip(i + 1));
            assert(b@.skip(i as int).drop_first() =~= b@.skip(i + 1));
        }
        i = i + 1;
    }
    i == a.len()
}

/// Whether `key` stands in `v` at position `p`.
pub fn occurs_at(v: &Vec<char>, p: usize, key: &Vec<char>) -> (r: bool)
    requires
        p <= v.len(),
    ensures
        r == (p + key@.len() <= v@.len() && v@.subrange(p as int, p + key@.len()) == key@),
{
    if key.len() > v.len() - p {
        return false;
    }
    let mut k: usize = 0;
    while k < key.len()
        invariant
            p + key@.len() <= v.len(),
            k <= key@.len(),
            forall|m: int| 0 <= m < k ==> v@[p + m] == key@[m],
        decreases key.len() - k,
    {
        if v[p + k] != key[k] {
            assert(v@.subrange(p as int, p + key@.len())[k as int] != key@[k as int]);
            return false;
        }
        k = k + 1;
    }
    assert(v@.subrange(p as int, p + key@.len()) =~= key@);
    true
}

/// Whether `pat` occurs in `s` as a contiguous piece.
pub open spec fn contains_text(s: Seq<char>, pat: Seq<char>) -> bool {
    exists|i: int| 0 <= i && i + pat.len() <= s.len() && #[trigger] s.subrange(i, i + pat.len()) == pat
}

/// Whether `pat` occurs in `s`, as `str::contains` tells.
pub fn contains_chars(s: &Vec<char>, pat: &Vec<char>) -> (r: bool)
    ensures
        r == contains_text(s@, pat@),
{
    if pat.len() > s.len() {
        return false;
    }
    let mut i: usize = 0;
    let last: usize = s.len() - pat.len();
    while i <= last
        invariant
            pat@.len() <= s@.len(),
            last == s@.len() - pat@.len(),
            i <= last + 1,
            forall|j: int| 0 <= j < i ==> #[trigger] s@.subrange(j, j + pat@.len()) != pat@,
        decreases s.len() - i,
    {
        let mut k: usize = 0;
        let mut same = true;
        while k < pat.len()
            invariant
                i <= last,
                last == s@.len() - pat@.len(),
                pat@.len() <= s@.len(),
                s@.len() <= usize::MAX,
                k <= pat@.len(),
                same == (forall|m: int| 0 <= m < k ==> s@[i + m] == pat@[m]),
            decreases pat.len() - k,
        {
            if s[i + k] != pat[k] {
                same = false;
            }
            k = k + 1;
        }
        if same {
            proof {
                assert(s@.subrange(i as int, i + pat@.len()) =~= pat@);
            }
            return true;
        }
        proof {
            let m = choose|m: int| 0 <= m < pat@.len() && s@[i + m] != pat@[m];
            assert(s@.subrange(i as int, i + pat@.len())[m] != pat@[m]);
        }
        i = i + 1;
    }
    false
}

proof fn lemma_digit_char(d: nat)
    requires
        d < 10,
    ensures
        '0' <= digit_char(d) <= '9',
        digit_char(d) as int - '0' as int == d,
{
}

/// The decimal representation of `n` is made of ASCII digits and reads back as `n`.
pub proof fn lemma_decimal_reads_back(n: nat)
    ensures
        decimal(n).len() > 0,
        forall|i: int| 0 <= i < decimal(n).len() ==> '0' <= #[trigger] decimal(n)[i] <= '9',
        digits_value(decimal(n)) == Some(n),
    decreases n,
{
    if n < 10 {
        lemma_digit_char(n);
        assert(decimal(n) =~= seq![digit_char(n)]);
    } else {
        lemma_decimal_reads_back(n / 10);
        lemma_digit_char(n % 10);
        let s = decimal(n);
        assert(s.drop_last() =~= decimal(n / 10));
        assert forall|i: int| 0 <= i < s.len() implies '0' <= #[trigger] s[i] <= '9' by {
            if i < s.len() - 1 {
                assert(s[i] == decimal(n / 10)[i]);
            }
        }
    }
}

/// A text whose first and last characters are not whitespace is its own trim.
pub proof fn lemma_trimmed_unchanged(s: Seq<char>)
    requires
        s.len() > 0,
        !unicode_whitespace(s[0]),
        !unicode_whitespace(s.last()),
    ensures
        trimmed(s) == s,
{
}

/// An integer written by `format!("{}", n)` reads back as `n`; the text holds no comma
/// and is its own trim.
pub proof fn lemma_integer_text_reads_back(n: int)
    ensures
        integer_literal(zero_padded(n, 0)) == Some(n),
        trimmed(zero_padded(n, 0)) == zero_padded(n, 0),
        !zero_padded(n, 0).contains(','),
{
    let m: nat = if n < 0 { (-n) as nat } else { n as nat };
    let d = decimal(m);
    lemma_decimal_reads_back(m);
    let s = zero_padded(n, 0);
    assert(repeat_char('0', 0) =~= Seq::<char>::empty());
    if n < 0 {
        assert(s =~= seq!['-'] + d);
        assert(s.drop_first() =~= d);
        assert(s.last() == d.last());
    } else {
        assert(s =~= d);
        assert(s[0] == d[0]);
    }
    lemma_trimmed_unchanged(s);
    if s.contains(',') {
        let i = choose|i: int| 0 <= i < s.len() && s[i] == ',';
        if n < 0 && i > 0 {
            assert(s[i] == d[i - 1]);
        } else if n >= 0 {
            assert(s[i] == d[i]);
        }
    }
}

} // verus!
