//! Character-level helpers shared by the parsers: strings as character
//! sequences, ASCII case folding and whitespace trimming.

use vstd::prelude::*;

verus! {

/// The characters of a string slice, in order.
pub fn chars_of(s: &str) -> (r: Vec<char>)
    ensures
        r@ == s@,
{
    let mut out: Vec<char> = Vec::new();
    for c in it: s.chars()
        invariant
            it.seq() == s@,
            out@ == s@.take(it.index() as int),
    {
        out.push(c);
    }
    proof {
        assert(s@.take(s@.len() as int) =~= s@);
    }
    out
}

/// Whether two character sequences are equal, compared element by element.
pub fn chars_eq(a: &Vec<char>, b: &Vec<char>) -> (r: bool)
    ensures
        r == (a@ == b@),
{
    if a.len() != b.len() {
        return false;
    }
    let mut i: usize = 0;
    while i < a.len()
        invariant
            i <= a@.len(),
            a@.len() == b@.len(),
            forall|j: int| 0 <= j < i ==> a@[j] == b@[j],
        decreases a@.len() - i,
    {
        if a[i] != b[i] {
            return false;
        }
        i = i + 1;
    }
    proof {
        assert(a@ =~= b@);
    }
    true
}

/// Whether two string slices hold the same characters.
pub fn str_eq(a: &str, b: &str) -> (r: bool)
    ensures
        r == (a@ == b@),
{
    let ca = chars_of(a);
    let cb = chars_of(b);
    chars_eq(&ca, &cb)
}

/// `String::push`: appends one character.
#[verifier::external_body]
pub(crate) fn push_char(s: &mut String, c: char)
    ensures
        final(s)@ == old(s)@.push(c),
{
    s.push(c);
}

/// The string holding exactly the given characters.
pub fn string_of(cs: &Vec<char>) -> (r: String)
    ensures
        r@ == cs@,
{
    let mut out = String::new();
    let mut i: usize = 0;
    while i < cs.len()
        invariant
            i <= cs@.len(),
            out@ == cs@.take(i as int),
        decreases cs@.len() - i,
    {
        push_char(&mut out, cs[i]);
        proof {
            assert(cs@.take(i + 1) =~= cs@.take(i as int).push(cs@[i as int]));
        }
        i = i + 1;
    }
    proof {
        assert(cs@.take(cs@.len() as int) =~= cs@);
    }
    out
}

/// The ASCII digit character of a value below ten.
pub open spec fn digit_char(d: nat) -> char {
    ((d + 48) as u32) as char
}

/// Decimal notation of a natural number, without leading zeros.
pub open spec fn dec_str(n: nat) -> Seq<char>
    decreases n,
{
    if n < 10 {
        seq![digit_char(n)]
    } else {
        dec_str(n / 10).push(digit_char(n % 10))
    }
}

fn digit(d: u64) -> (c: char)
    requires
        d < 10,
    ensures
        c == digit_char(d as nat),
{
    let b: u8 = 48u8 + (d as u8);
    b as char
}

/// Decimal notation is non-empty and made of digits only.
pub proof fn lemma_dec_str_digits(n: nat)
    ensures
        dec_str(n).len() >= 1,
        n >= 10 ==> dec_str(n).len() >= 2,
        forall|i: int| 0 <= i < dec_str(n).len() ==> is_digit(#[trigger] dec_str(n)[i]),
    decreases n,
{
    if n >= 10 {
        lemma_dec_str_digits(n / 10);
        assert forall|i: int| 0 <= i < dec_str(n).len() implies is_digit(#[trigger] dec_str(n)[i]) by {
            if i < dec_str(n / 10).len() {
                assert(dec_str(n)[i] == dec_str(n / 10)[i]);
            }
        }
    }
}

/// Distinct numbers have distinct decimal notations.
pub proof fn lemma_dec_str_injective(a: nat, b: nat)
    requires
        dec_str(a) == dec_str(b),
    ensures
        a == b,
    decreases a,
{
    lemma_dec_str_digits(a);
    lemma_dec_str_digits(b);
    if a >= 10 && b >= 10 {
        assert(dec_str(a).drop_last() =~= dec_str(a / 10));
        assert(dec_str(b).drop_last() =~= dec_str(b / 10));
        lemma_dec_str_injective(a / 10, b / 10);
        assert(dec_str(a).last() == digit_char(a % 10));
        assert(dec_str(b).last() == digit_char(b % 10));
    } else if a < 10 && b < 10 {
        assert(dec_str(a)[0] == digit_char(a));
        assert(dec_str(b)[0] == digit_char(b));
    }
}

/// Splitting at the first separator: if `x` and `x2` hold no `c`, then
/// `x + [c] + y == x2 + [c] + y2` forces `x == x2` and `y == y2`.
pub proof fn lemma_split_at_separator(x: Seq<char>, y: Seq<char>, x2: Seq<char>, y2: Seq<char>, c: char)
    requires
        forall|i: int| 0 <= i < x.len() ==> x[i] != c,
        forall|i: int| 0 <= i < x2.len() ==> x2[i] != c,
        x + seq![c] + y == x2 + seq![c] + y2,
    ensures
        x == x2,
        y == y2,
{
    let s = x + seq![c] + y;
    let s2 = x2 + seq![c] + y2;
    if x.len() < x2.len() {
        assert(s[x.len() as int] == c);
        assert(s2[x.len() as int] == x2[x.len() as int]);
    } else if x2.len() < x.len() {
        assert(s2[x2.len() as int] == c);
        assert(s[x2.len() as int] == x[x2.len() as int]);
    }
    assert(x =~= s.take(x.len() as int));
    assert(x2 =~= s2.take(x2.len() as int));
    assert(y =~= s.skip(x.len() as int + 1));
    assert(y2 =~= s2.skip(x2.len() as int + 1));
}

/// Append the decimal notation of `n`.
pub fn push_decimal(s: &mut String, n: u64)
    ensures
        final(s)@ == old(s)@ + dec_str(n as nat),
    decreases n,
{
    if n >= 10 {
        push_decimal(s, n / 10);
    }
    push_char(s, digit(n % 10));
    proof {
        if n >= 10 {
            assert(old(s)@ + dec_str(n as nat) =~= old(s)@ + dec_str((n / 10) as nat) + seq![digit_char((n % 10) as nat)]);
        }
    }
}

/// The first position at or after `i` where `p` occurs in `s`.
pub open spec fn find_from(s: Seq<char>, p: Seq<char>, i: int) -> Option<int>
    decreases s.len() + 1 - i,
{
    if i < 0 || i + p.len() > s.len() {
        None
    } else if s.subrange(i, i + p.len()) == p {
        Some(i)
    } else {
        find_from(s, p, i + 1)
    }
}

/// The first position where `p` occurs in `s`.
pub open spec fn find(s: Seq<char>, p: Seq<char>) -> Option<int> {
    find_from(s, p, 0)
}

pub proof fn lemma_find_from_bounds(s: Seq<char>, p: Seq<char>, i: int)
    ensures
        find_from(s, p, i) matches Some(j) ==> i <= j && j + p.len() <= s.len()
            && s.subrange(j, j + p.len()) == p,
    decreases s.len() + 1 - i,
{
    if !(i < 0 || i + p.len() > s.len()) && s.subrange(i, i + p.len()) != p {
        lemma_find_from_bounds(s, p, i + 1);
    }
}

/// The first position at or after `from` where `p` occurs in `s`.
pub fn find_chars(s: &Vec<char>, p: &Vec<char>, from: usize) -> (r: Option<usize>)
    ensures
        r is None <==> find_from(s@, p@, from as int) is None,
        r matches Some(j) ==> find_from(s@, p@, from as int) == Some(j as int) && from <= j && j + p@.len()
            <= s.len() && s@.subrange(j as int, j + p@.len()) == p@,
{
    proof {
        lemma_find_from_bounds(s@, p@, from as int);
    }
    if p.len() > s.len() {
        return None;
    }
    let n = s.len();
    let last = n - p.len();
    let mut i = from;
    while i <= last
        invariant
            from <= i,
            last == s@.len() - p@.len(),
            n == s@.len(),
            find_from(s@, p@, from as int) == find_from(s@, p@, i as int),
        decreases last + 1 - i,
    {
        let mut k: usize = 0;
        let mut same = true;
        while k < p.len()
            invariant
                k <= p@.len(),
                i <= last,
                last + p@.len() == s@.len(),
                n == s@.len(),
                same == (forall|m: int| 0 <= m < k ==> s@[i + m] == p@[m]),
            decreases p@.len() - k,
        {
            if s[i + k] != p[k] {
                same = false;
            }
            k = k + 1;
        }
        if same {
            proof {
                assert(s@.subrange(i as int, i + p@.len()) =~= p@);
            }
            return Some(i);
        }
        proof {
            if s@.subrange(i as int, i + p@.len()) == p@ {
                let m = choose|m: int| 0 <= m < p@.len() && s@[i + m] != p@[m];
                assert(s@.subrange(i as int, i + p@.len())[m] == s@[i + m]);
            }
        }
        if i == last {
            proof {
                assert(find_from(s@, p@, i + 1) == None::<int>);
            }
            return None;
        }
        i = i + 1;
    }
    None
}

/// Whether `c` has the Unicode `White_Space` property, which
/// `char::is_whitespace` and `str::trim` test: tab, line feed, vertical
/// tab, form feed, carriage return, space, next line, no-break space,
/// ogham space mark, the spaces U+2000 to U+200A, line and paragraph
/// separators, narrow no-break space, medium mathematical space and
/// ideographic space.
pub open spec fn unicode_white_space(c: char) -> bool {
    let u = c as u32;
    ||| 0x09 <= u <= 0x0d
    ||| u == 0x20
    ||| u == 0x85
    ||| u == 0xa0
    ||| u == 0x1680
    ||| 0x2000 <= u <= 0x200a
    ||| u == 0x2028
    ||| u == 0x2029
    ||| u == 0x202f
    ||| u == 0x205f
    ||| u == 0x3000
}

/// Whether `c` is white space.
pub fn is_white_space(c: char) -> (r: bool)
    ensures
        r == unicode_white_space(c),
{
    let u = c as u32;
    (0x09 <= u && u <= 0x0d) || u == 0x20 || u == 0x85 || u == 0xa0 || u == 0x1680 || (0x2000 <= u && u <= 0x200a)
        || u == 0x2028 || u == 0x2029 || u == 0x202f || u == 0x205f || u == 0x3000
}

/// Number of leading white-space characters of `s`.
pub open spec fn lead_ws(s: Seq<char>) -> nat
    decreases s.len(),
{
    if s.len() > 0 && unicode_white_space(s[0]) {
        1 + lead_ws(s.drop_first())
    } else {
        0
    }
}

/// Number of trailing white-space characters of `s`.
pub open spec fn trail_ws(s: Seq<char>) -> nat
    decreases s.len(),
{
    if s.len() > 0 && unicode_white_space(s.last()) {
        1 + trail_ws(s.drop_last())
    } else {
        0
    }
}

/// `s` without leading and trailing white space.
pub open spec fn trimmed(s: Seq<char>) -> Seq<char> {
    let a = lead_ws(s) as int;
    if a == s.len() {
        Seq::empty()
    } else {
        s.subrange(a, s.len() - trail_ws(s))
    }
}

proof fn lemma_lead_ws_bound(s: Seq<char>)
    ensures
        lead_ws(s) <= s.len(),
        lead_ws(s) < s.len() ==> !unicode_white_space(s[lead_ws(s) as int]),
        forall|i: int| 0 <= i < lead_ws(s) ==> unicode_white_space(#[trigger] s[i]),
    decreases s.len(),
{
    if s.len() > 0 && unicode_white_space(s[0]) {
        lemma_lead_ws_bound(s.drop_first());
        assert forall|i: int| 0 <= i < lead_ws(s) implies unicode_white_space(#[trigger] s[i]) by {
            if i > 0 {
                assert(s[i] == s.drop_first()[i - 1]);
            }
        }
    }
}

proof fn lemma_trail_ws_bound(s: Seq<char>)
    ensures
        trail_ws(s) <= s.len(),
        trail_ws(s) < s.len() ==> !unicode_white_space(s[s.len() - 1 - trail_ws(s)]),
        forall|i: int| s.len() - trail_ws(s) <= i < s.len() ==> unicode_white_space(#[trigger] s[i]),
    decreases s.len(),
{
    if s.len() > 0 && unicode_white_space(s.last()) {
        lemma_trail_ws_bound(s.drop_last());
        assert forall|i: int| s.len() - trail_ws(s) <= i < s.len() implies unicode_white_space(#[trigger] s[i]) by {
            if i < s.len() - 1 {
                assert(s[i] == s.drop_last()[i]);
            }
        }
    }
}

/// The characters of `s[from..to]` with white space trimmed from both ends.
pub fn trim_range(s: &Vec<char>, from: usize, to: usize) -> (r: Vec<char>)
    requires
        from <= to <= s@.len(),
    ensures
        r@ == trimmed(s@.subrange(from as int, to as int)),
{
    let ghost t = s@.subrange(from as int, to as int);
    proof {
        lemma_lead_ws_bound(t);
        lemma_trail_ws_bound(t);
    }
    let mut a = from;
    while a < to && is_white_space(s[a])
        invariant
            from <= a <= to,
            to <= s@.len(),
            t == s@.subrange(from as int, to as int),
            forall|i: int| from <= i < a ==> unicode_white_space(#[trigger] s@[i]),
            a - from <= lead_ws(t),
        decreases to - a,
    {
        proof {
            lemma_lead_prefix(t, (a - from) as int);
        }
        a = a + 1;
    }
    proof {
        lemma_lead_exact(t, (a - from) as int);
    }
    if a == to {
        return Vec::new();
    }
    let mut b = to;
    while b > a && is_white_space(s[b - 1])
        invariant
            a < to,
            a <= b <= to,
            to <= s@.len(),
            t == s@.subrange(from as int, to as int),
            lead_ws(t) == a - from,
            a - from < t.len(),
            !unicode_white_space(t[a - from]),
            forall|i: int| b <= i < to ==> unicode_white_space(#[trigger] s@[i]),
            to - b <= trail_ws(t),
        decreases b - a,
    {
        proof {
            lemma_trail_prefix(t, (to - b) as int);
        }
        b = b - 1;
    }
    proof {
        lemma_trail_exact(t, (to - b) as int);
    }
    let mut out: Vec<char> = Vec::new();
    let mut i = a;
    while i < b
        invariant
            a <= i <= b,
            b <= s@.len(),
            out@ == s@.subrange(a as int, i as int),
        decreases b - i,
    {
        out.push(s[i]);
        proof {
            assert(s@.subrange(a as int, i + 1) =~= s@.subrange(a as int, i as int).push(s@[i as int]));
        }
        i = i + 1;
    }
    proof {
        assert(out@ =~= t.subrange((a - from) as int, t.len() - trail_ws(t)));
    }
    out
}

proof fn lemma_lead_prefix(t: Seq<char>, k: int)
    requires
        0 <= k < t.len(),
        k <= lead_ws(t),
        forall|i: int| 0 <= i < k ==> unicode_white_space(#[trigger] t[i]),
        unicode_white_space(t[k]),
    ensures
        k + 1 <= lead_ws(t),
    decreases k,
{
    if k > 0 {
        lemma_lead_prefix(t.drop_first(), k - 1);
    }
}

proof fn lemma_lead_exact(t: Seq<char>, k: int)
    requires
        0 <= k <= t.len(),
        k <= lead_ws(t),
        k < t.len() ==> !unicode_white_space(t[k]),
    ensures
        lead_ws(t) == k,
    decreases k,
{
    if k > 0 {
        lemma_lead_exact(t.drop_first(), k - 1);
    }
}

proof fn lemma_trail_prefix(t: Seq<char>, k: int)
    requires
        0 <= k < t.len(),
        k <= trail_ws(t),
        unicode_white_space(t[t.len() - 1 - k]),
    ensures
        k + 1 <= trail_ws(t),
    decreases k,
{
    if k > 0 {
        assert(t.drop_last()[t.len() - 2 - (k - 1)] == t[t.len() - 1 - k]);
        lemma_trail_prefix(t.drop_last(), k - 1);
    }
}

proof fn lemma_trail_exact(t: Seq<char>, k: int)
    requires
        0 <= k <= t.len(),
        k <= trail_ws(t),
        k < t.len() ==> !unicode_white_space(t[t.len() - 1 - k]),
    ensures
        trail_ws(t) == k,
    decreases k,
{
    if k > 0 {
        if k < t.len() {
            assert(t.drop_last()[t.len() - 2 - (k - 1)] == t[t.len() - 1 - k]);
        }
        lemma_trail_exact(t.drop_last(), k - 1);
    }
}

/// Parts completed so far and the part in progress, splitting at `c`.
pub open spec fn split_acc(s: Seq<char>, c: char) -> (Seq<Seq<char>>, Seq<char>)
    decreases s.len(),
{
    if s.len() == 0 {
        (Seq::empty(), Seq::empty())
    } else {
        let (done, cur) = split_acc(s.drop_last(), c);
        if s.last() == c {
            (done.push(cur), Seq::empty())
        } else {
            (done, cur.push(s.last()))
        }
    }
}

/// All parts of `s` between occurrences of `c` (what `str::split(c)`
/// yields): one more part than there are separators.
pub open spec fn split_on(s: Seq<char>, c: char) -> Seq<Seq<char>> {
    split_acc(s, c).0.push(split_acc(s, c).1)
}

pub open spec fn chars_seqs(v: Seq<Vec<char>>) -> Seq<Seq<char>> {
    v.map_values(|x: Vec<char>| x@)
}

/// Split the characters at every `c`, as `str::split(c)` does.
pub fn split_chars(s: &Vec<char>, c: char) -> (r: Vec<Vec<char>>)
    ensures
        chars_seqs(r@) == split_on(s@, c),
{
    let mut out: Vec<Vec<char>> = Vec::new();
    let mut cur: Vec<char> = Vec::new();
    let mut i: usize = 0;
    while i < s.len()
        invariant
            i <= s@.len(),
            split_acc(s@.take(i as int), c).1 == cur@,
            chars_seqs(out@) == split_acc(s@.take(i as int), c).0,
        decreases s@.len() - i,
    {
        let x = s[i];
        proof {
            assert(s@.take(i + 1).drop_last() =~= s@.take(i as int));
        }
        if x == c {
            let ghost before = out@;
            out.push(cur);
            proof {
                assert(chars_seqs(out@) =~= chars_seqs(before).push(split_acc(s@.take(i as int), c).1));
            }
            cur = Vec::new();
        } else {
            cur.push(x);
        }
        i = i + 1;
    }
    proof {
        assert(s@.take(s@.len() as int) =~= s@);
    }
    let ghost before = out@;
    out.push(cur);
    proof {
        assert(chars_seqs(out@) =~= chars_seqs(before).push(split_acc(s@, c).1));
    }
    out
}

/// Whether `c` is an ASCII decimal digit.
pub open spec fn is_digit(c: char) -> bool {
    '0' <= c <= '9'
}

/// Value of a run of decimal digits.
pub open spec fn digits_value(s: Seq<char>) -> nat
    decreases s.len(),
{
    if s.len() == 0 {
        0
    } else {
        digits_value(s.drop_last()) * 10 + ((s.last() as u32) - 48) as nat
    }
}

/// The text after an optional leading `+`.
pub open spec fn unsigned_digits(s: Seq<char>) -> Seq<char> {
    if s.len() > 0 && s[0] == '+' {
        s.drop_first()
    } else {
        s
    }
}

/// What `str::parse::<usize>` accepts: an optional `+`, then one or more
/// ASCII digits whose value fits in `usize`.
pub open spec fn parsed_usize(s: Seq<char>) -> Option<nat> {
    let d = unsigned_digits(s);
    if d.len() > 0 && (forall|i: int| 0 <= i < d.len() ==> is_digit(#[trigger] d[i]))
        && digits_value(d) <= usize::MAX {
        Some(digits_value(d))
    } else {
        None
    }
}

proof fn lemma_digits_value_grows(s: Seq<char>, k: int)
    requires
        0 <= k <= s.len(),
        forall|i: int| 0 <= i < s.len() ==> is_digit(#[trigger] s[i]),
    ensures
        digits_value(s.take(k)) <= digits_value(s),
    decreases s.len(),
{
    if k < s.len() {
        assert(s.drop_last().take(k) =~= s.take(k));
        assert forall|i: int| 0 <= i < s.drop_last().len() implies is_digit(#[trigger] s.drop_last()[i]) by {
            assert(s.drop_last()[i] == s[i]);
        }
        lemma_digits_value_grows(s.drop_last(), k);
    } else {
        assert(s.take(k) =~= s);
    }
}

/// Parse `s[from..to]` as `str::parse::<usize>` does.
pub fn parse_usize(s: &Vec<char>, from: usize, to: usize) -> (r: Option<usize>)
    requires
        from <= to <= s@.len(),
    ensures
        r == (match parsed_usize(s@.subrange(from as int, to as int)) {
            Some(v) => Some(v as usize),
            None => None::<usize>,
        }),
{
    let ghost t = s@.subrange(from as int, to as int);
    let mut a = from;
    if a < to && s[a] == '+' {
        a = a + 1;
    }
    let ghost d = unsigned_digits(t);
    proof {
        assert(d =~= s@.subrange(a as int, to as int));
    }
    if a == to {
        return None;
    }
    let mut v: usize = 0;
    let mut i = a;
    while i < to
        invariant
            a <= i <= to,
            to <= s@.len(),
            d == s@.subrange(a as int, to as int),
            d == unsigned_digits(s@.subrange(from as int, to as int)),
            forall|m: int| 0 <= m < i - a ==> is_digit(#[trigger] d[m]),
            v == digits_value(d.take(i - a)),
        decreases to - i,
    {
        let c = s[i];
        if !('0' <= c && c <= '9') {
            proof {
                assert(!is_digit(d[i - a]));
            }
            return None;
        }
        let dv = (c as u32 - 48) as usize;
        proof {
            assert(d.take(i - a + 1).drop_last() =~= d.take(i - a));
            assert(d.take(i - a + 1).last() == c);
        }
        if v > (usize::MAX - dv) / 10 {
            proof {
                assert(digits_value(d.take(i - a + 1)) > usize::MAX);
                if forall|m: int| 0 <= m < d.len() ==> is_digit(#[trigger] d[m]) {
                    lemma_digits_value_grows(d, i - a + 1);
                }
            }
            return None;
        }
        v = v * 10 + dv;
        i = i + 1;
    }
    proof {
        assert(d.take(d.len() as int) =~= d);
    }
    Some(v)
}

/// ASCII lower-casing of one character; other characters are unchanged.
pub open spec fn lower_char(c: char) -> char {
    if 'A' <= c <= 'Z' {
        ((c as u32) + 32) as char
    } else {
        c
    }
}

/// ASCII lower-casing of a whole string.
pub open spec fn ascii_lower(s: Seq<char>) -> Seq<char> {
    s.map_values(|c: char| lower_char(c))
}

pub fn to_lower_char(c: char) -> (r: char)
    ensures
        r == lower_char(c),
{
    if 'A' <= c && c <= 'Z' {
        let b: u8 = (c as u8) + 32;
        b as char
    } else {
        c
    }
}

/// The ASCII-lower-cased characters of `s`.
pub fn lower_chars_of(s: &str) -> (r: Vec<char>)
    ensures
        r@ == ascii_lower(s@),
{
    let cs = chars_of(s);
    let mut out: Vec<char> = Vec::new();
    let mut i: usize = 0;
    while i < cs.len()
        invariant
            i <= cs@.len(),
            cs@ == s@,
            out@ == ascii_lower(s@).take(i as int),
        decreases cs@.len() - i,
    {
        out.push(to_lower_char(cs[i]));
        proof {
            assert(ascii_lower(s@).take(i + 1) =~= ascii_lower(s@).take(i as int).push(lower_char(cs@[i as int])));
        }
        i = i + 1;
    }
    proof {
        assert(ascii_lower(s@).take(cs@.len() as int) =~= ascii_lower(s@));
    }
    out
}

/// Whether the characters equal the given string slice.
pub fn chars_eq_str(a: &Vec<char>, b: &str) -> (r: bool)
    ensures
        r == (a@ == b@),
{
    let cb = chars_of(b);
    chars_eq(a, &cb)
}

/// A copy of `s[from..to]`.
pub fn sub_chars(s: &Vec<char>, from: usize, to: usize) -> (r: Vec<char>)
    requires
        from <= to <= s@.len(),
    ensures
        r@ == s@.subrange(from as int, to as int),
{
    let mut out: Vec<char> = Vec::new();
    let mut i = from;
    while i < to
        invariant
            from <= i <= to,
            to <= s@.len(),
            out@ == s@.subrange(from as int, i as int),
        decreases to - i,
    {
        out.push(s[i]);
        proof {
            assert(s@.subrange(from as int, i + 1) =~= s@.subrange(from as int, i as int).push(s@[i as int]));
        }
        i = i + 1;
    }
    out
}

/// What `String::from_utf8_lossy` makes of a byte string.
pub uninterp spec fn utf8_lossy(b: Seq<u8>) -> Seq<char>;

/// `String::from_utf8_lossy`: the text of the bytes, with invalid sequences
/// replaced; valid UTF-8 decodes unchanged.
#[verifier::external_body]
pub(crate) fn lossy_text(b: &[u8]) -> (r: String)
    ensures
        r@ == utf8_lossy(b@),
        vstd::utf8::valid_utf8(b@) ==> r@ == vstd::utf8::decode_utf8(b@),
{
    String::from_utf8_lossy(b).into_owned()
}

/// `std::str::from_utf8`: the bytes read as text, when they are valid UTF-8.
#[verifier::external_body]
pub(crate) fn utf8_text(b: &[u8]) -> (r: Option<&str>)
    ensures
        r is Some <==> vstd::utf8::valid_utf8(b@),
        r matches Some(t) ==> t@ == vstd::utf8::decode_utf8(b@),
{
    std::str::from_utf8(b).ok()
}

} // verus!
