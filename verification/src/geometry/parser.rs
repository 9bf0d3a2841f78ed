//! Plain-text geometry records: splitting free text into logical records,
//! and recognizing XYZ point text by its leading numbers.

use vstd::prelude::*;
use crate::text::{
    ascii_lower, chars_of, chars_seqs, is_digit, is_white_space, split_acc, split_chars, split_on, string_of,
    to_lower_char, trim_range, trimmed, unicode_white_space,
};

verus! {

/// A line without one trailing `\r`.
pub open spec fn strip_cr(l: Seq<char>) -> Seq<char> {
    if l.len() > 0 && l.last() == '\r' {
        l.drop_last()
    } else {
        l
    }
}

/// The lines of a text as `str::lines` yields them: split at `\n`, a `\r`
/// before the `\n` dropped, no empty line after a final line break.
pub open spec fn text_lines(s: Seq<char>) -> Seq<Seq<char>> {
    let (done, cur) = split_acc(s, '\n');
    let full = done.map_values(|l: Seq<char>| strip_cr(l));
    if cur.len() > 0 {
        full.push(cur)
    } else {
        full
    }
}

/// A record part worth keeping: non-empty and not a `#` or `//` comment.
pub open spec fn kept(t: Seq<char>) -> bool {
    t.len() > 0 && t[0] != '#' && !(t.len() >= 2 && t[0] == '/' && t[1] == '/')
}

/// The kept, trimmed parts of one line, each with the line's number.
pub open spec fn line_records(parts: Seq<Seq<char>>, n: nat) -> Seq<(nat, Seq<char>)>
    decreases parts.len(),
{
    if parts.len() == 0 {
        Seq::empty()
    } else {
        let prev = line_records(parts.drop_last(), n);
        let t = trimmed(parts.last());
        if kept(t) {
            prev.push((n, t))
        } else {
            prev
        }
    }
}

/// The logical records of a list of lines: each line split at `;`.
pub open spec fn records_of_lines(lines: Seq<Seq<char>>) -> Seq<(nat, Seq<char>)>
    decreases lines.len(),
{
    if lines.len() == 0 {
        Seq::empty()
    } else {
        records_of_lines(lines.drop_last()) + line_records(split_on(lines.last(), ';'), lines.len())
    }
}

/// Logical records of free text: one per line or `;`-separated part,
/// trimmed, with comments and blanks dropped, numbered by their 1-based line.
pub open spec fn logical_records(text: Seq<char>) -> Seq<(nat, Seq<char>)> {
    records_of_lines(text_lines(text))
}

fn lines_of(cs: &Vec<char>) -> (r: Vec<Vec<char>>)
    ensures
        chars_seqs(r@) == text_lines(cs@),
{
    let parts = split_chars(cs, '\n');
    let ghost sp = split_acc(cs@, '\n');
    proof {
        assert(chars_seqs(parts@).drop_last() =~= sp.0);
        assert(chars_seqs(parts@).last() == sp.1);
    }
    let n = parts.len();
    let mut out: Vec<Vec<char>> = Vec::new();
    let mut i: usize = 0;
    while i + 1 < n
        invariant
            n == parts@.len(),
            n >= 1,
            i + 1 <= n,
            chars_seqs(parts@).drop_last() == sp.0,
            chars_seqs(out@) == sp.0.take(i as int).map_values(|l: Seq<char>| strip_cr(l)),
        decreases n - i,
    {
        let mut line = sub_all(&parts[i]);
        proof {
            assert(sp.0[i as int] == parts@[i as int]@);
        }
        if line.len() > 0 && line[line.len() - 1] == '\r' {
            line.pop();
        }
        let ghost before = out@;
        out.push(line);
        proof {
            assert(sp.0.take(i + 1).map_values(|l: Seq<char>| strip_cr(l)) =~= sp.0.take(i as int).map_values(|l: Seq<char>| strip_cr(l)).push(strip_cr(sp.0[i as int])));
            assert(chars_seqs(out@) =~= chars_seqs(before).push(strip_cr(sp.0[i as int])));
        }
        i = i + 1;
    }
    proof {
        assert(sp.0.take(sp.0.len() as int) =~= sp.0);
    }
    if parts[n - 1].len() > 0 {
        let last = sub_all(&parts[n - 1]);
        let ghost before = out@;
        out.push(last);
        proof {
            assert(chars_seqs(out@) =~= chars_seqs(before).push(sp.1));
        }
    }
    out
}

fn sub_all(v: &Vec<char>) -> (r: Vec<char>)
    ensures
        r@ == v@,
{
    let r = crate::text::sub_chars(v, 0, v.len());
    proof {
        assert(v@.subrange(0, v@.len() as int) =~= v@);
    }
    r
}

fn is_kept(t: &Vec<char>) -> (r: bool)
    ensures
        r == kept(t@),
{
    t.len() > 0 && t[0] != '#' && !(t.len() >= 2 && t[0] == '/' && t[1] == '/')
}

/// Split free text into logical records: newline or `;`, comments stripped.
pub fn logical_lines(text: &str) -> (r: Vec<(usize, String)>)
    ensures
        r@.map_values(|p: (usize, String)| (p.0 as nat, p.1@)) == logical_records(text@),
{
    let cs = chars_of(text);
    let lines = lines_of(&cs);
    let ghost ls = chars_seqs(lines@);
    let mut out: Vec<(usize, String)> = Vec::new();
    let nl = lines.len();
    let mut i: usize = 0;
    while i < lines.len()
        invariant
            i <= lines@.len(),
            nl == lines@.len(),
            ls == chars_seqs(lines@),
            ls == text_lines(text@),
            out@.map_values(|p: (usize, String)| (p.0 as nat, p.1@)) == records_of_lines(ls.take(i as int)),
        decreases lines@.len() - i,
    {
        let parts = split_chars(&lines[i], ';');
        let ghost ps = chars_seqs(parts@);
        proof {
            assert(ls.take(i + 1).drop_last() =~= ls.take(i as int));
            assert(ls.take(i + 1).last() == lines@[i as int]@);
        }
        let ghost base = out@.map_values(|p: (usize, String)| (p.0 as nat, p.1@));
        let mut k: usize = 0;
        while k < parts.len()
            invariant
                k <= parts@.len(),
                i < nl,
                ps == chars_seqs(parts@),
                out@.map_values(|p: (usize, String)| (p.0 as nat, p.1@)) == base + line_records(ps.take(k as int), (i + 1) as nat),
            decreases parts@.len() - k,
        {
            let t = trim_range(&parts[k], 0, parts[k].len());
            proof {
                assert(parts@[k as int]@.subrange(0, parts@[k as int]@.len() as int) =~= parts@[k as int]@);
                assert(ps.take(k + 1).drop_last() =~= ps.take(k as int));
                assert(ps.take(k + 1).last() == parts@[k as int]@);
            }
            if is_kept(&t) {
                let ghost before = out@;
                out.push((i + 1, string_of(&t)));
                proof {
                    assert(out@.map_values(|p: (usize, String)| (p.0 as nat, p.1@)) =~= before.map_values(|p: (usize, String)| (p.0 as nat, p.1@)).push(((i + 1) as nat, t@)));
                }
            }
            k = k + 1;
        }
        proof {
            assert(ps.take(ps.len() as int) =~= ps);
        }
        i = i + 1;
    }
    proof {
        assert(ls.take(ls.len() as int) =~= ls);
    }
    out
}

/// All characters are ASCII digits.
pub open spec fn all_digits(s: Seq<char>) -> bool {
    forall|i: int| 0 <= i < s.len() ==> is_digit(#[trigger] s[i])
}

/// The text after an optional leading sign.
pub open spec fn unsigned_part(s: Seq<char>) -> Seq<char> {
    if s.len() > 0 && (s[0] == '+' || s[0] == '-') {
        s.drop_first()
    } else {
        s
    }
}

/// Digits with at most one `.`, and at least one digit.
pub open spec fn mantissa_ok(m: Seq<char>) -> bool {
    match crate::text::find(m, seq!['.']) {
        None => m.len() > 0 && all_digits(m),
        Some(d) => all_digits(m.take(d)) && all_digits(m.skip(d + 1)) && m.len() > 1,
    }
}

/// A decimal number with an optional `e` exponent (signed digits).
pub open spec fn number_ok(b: Seq<char>) -> bool {
    match crate::text::find(b, seq!['e']) {
        None => mantissa_ok(b),
        Some(e) => {
            let z = unsigned_part(b.skip(e + 1));
            mantissa_ok(b.take(e)) && z.len() > 0 && all_digits(z)
        },
    }
}

/// The text `str::parse::<f32>` accepts, as its documentation gives the
/// grammar (after lower-casing): an optional sign, then `inf`, `infinity`,
/// `nan`, or a decimal number with an optional exponent.
pub open spec fn float_literal(s: Seq<char>) -> bool {
    let b = unsigned_part(ascii_lower(s));
    b == "inf"@ || b == "infinity"@ || b == "nan"@ || number_ok(b)
}

fn digits_in(v: &Vec<char>, a: usize, b: usize) -> (r: bool)
    requires
        a <= b <= v@.len(),
    ensures
        r == all_digits(v@.subrange(a as int, b as int)),
{
    let mut i = a;
    while i < b
        invariant
            a <= i <= b,
            b <= v@.len(),
            forall|j: int| a <= j < i ==> is_digit(#[trigger] v@[j]),
        decreases b - i,
    {
        if !('0' <= v[i] && v[i] <= '9') {
            proof {
                assert(v@.subrange(a as int, b as int)[i - a] == v@[i as int]);
            }
            return false;
        }
        i = i + 1;
    }
    proof {
        assert forall|j: int| 0 <= j < v@.subrange(a as int, b as int).len() implies is_digit(#[trigger] v@.subrange(a as int, b as int)[j]) by {
            assert(v@.subrange(a as int, b as int)[j] == v@[a + j]);
        }
    }
    true
}

fn one(c: char) -> (r: Vec<char>)
    ensures
        r@ == seq![c],
{
    let mut v: Vec<char> = Vec::new();
    v.push(c);
    proof {
        assert(v@ =~= seq![c]);
    }
    v
}

fn mantissa_in(v: &Vec<char>, a: usize, b: usize) -> (r: bool)
    requires
        a <= b <= v@.len(),
    ensures
        r == mantissa_ok(v@.subrange(a as int, b as int)),
{
    let m = crate::text::sub_chars(v, a, b);
    match crate::text::find_chars(&m, &one('.'), 0) {
        None => m.len() > 0 && digits_in(&m, 0, m.len()) && {
            proof {
                assert(m@.subrange(0, m@.len() as int) =~= m@);
            }
            true
        },
        Some(d) => {
            proof {
                assert(m@.subrange(0, d as int) =~= m@.take(d as int));
                assert(m@.subrange(d + 1, m@.len() as int) =~= m@.skip(d + 1));
            }
            digits_in(&m, 0, d) && digits_in(&m, d + 1, m.len()) && m.len() > 1
        },
    }
}

/// Whether `t` is text that `str::parse::<f32>` accepts.
pub fn is_float_literal(t: &Vec<char>) -> (r: bool)
    ensures
        r == float_literal(t@),
{
    let mut low: Vec<char> = Vec::new();
    let mut i: usize = 0;
    while i < t.len()
        invariant
            i <= t@.len(),
            low@ == ascii_lower(t@).take(i as int),
        decreases t@.len() - i,
    {
        low.push(to_lower_char(t[i]));
        proof {
            assert(ascii_lower(t@).take(i + 1) =~= ascii_lower(t@).take(i as int).push(crate::text::lower_char(t@[i as int])));
        }
        i = i + 1;
    }
    proof {
        assert(ascii_lower(t@).take(t@.len() as int) =~= ascii_lower(t@));
    }
    let start: usize = if low.len() > 0 && (low[0] == '+' || low[0] == '-') { 1 } else { 0 };
    let b = crate::text::sub_chars(&low, start, low.len());
    proof {
        assert(b@ =~= unsigned_part(low@));
    }
    if crate::text::chars_eq_str(&b, "inf") || crate::text::chars_eq_str(&b, "infinity") || crate::text::chars_eq_str(&b, "nan") {
        return true;
    }
    match crate::text::find_chars(&b, &one('e'), 0) {
        None => {
            let r = mantissa_in(&b, 0, b.len());
            proof {
                assert(b@.subrange(0, b@.len() as int) =~= b@);
            }
            r
        },
        Some(e) => {
            let ok_m = mantissa_in(&b, 0, e);
            let zs: usize = if e + 1 < b.len() && (b[e + 1] == '+' || b[e + 1] == '-') { e + 2 } else { e + 1 };
            proof {
                assert(b@.subrange(0, e as int) =~= b@.take(e as int));
                assert(b@.subrange(zs as int, b@.len() as int) =~= unsigned_part(b@.skip(e + 1)));
            }
            ok_m && zs < b.len() && digits_in(&b, zs, b.len())
        },
    }
}

/// A field separator of XYZ text: white space or a comma.
pub open spec fn is_sep(c: char) -> bool {
    unicode_white_space(c) || c == ','
}

/// Number of leading separators.
pub open spec fn lead_sep(s: Seq<char>) -> nat
    decreases s.len(),
{
    if s.len() > 0 && is_sep(s[0]) {
        1 + lead_sep(s.drop_first())
    } else {
        0
    }
}

/// Number of leading non-separators.
pub open spec fn run_len(s: Seq<char>) -> nat
    decreases s.len(),
{
    if s.len() > 0 && !is_sep(s[0]) {
        1 + run_len(s.drop_first())
    } else {
        0
    }
}

/// The first non-empty field of a record, split at white space or commas.
pub open spec fn first_field(line: Seq<char>) -> Option<Seq<char>> {
    let a = lead_sep(line);
    if a >= line.len() {
        None
    } else {
        let rest = line.skip(a as int);
        Some(rest.take(run_len(rest) as int))
    }
}

/// Text that is bare XYZ point data: at least one record, and every record
/// starts with a number.
pub open spec fn xyz_text(text: Seq<char>) -> bool {
    let recs = logical_records(text);
    recs.len() > 0 && forall|i: int| 0 <= i < recs.len() ==> match first_field(#[trigger] recs[i].1) {
        Some(t) => float_literal(t),
        None => false,
    }
}

pub(crate) proof fn lemma_run_len(s: Seq<char>, k: int)
    requires
        0 <= k <= s.len(),
        forall|i: int| 0 <= i < k ==> !is_sep(#[trigger] s[i]),
        k == s.len() || is_sep(s[k]),
    ensures
        run_len(s) == k,
    decreases k,
{
    if k > 0 {
        lemma_run_len(s.drop_first(), k - 1);
    }
}

proof fn lemma_lead_sep_exact(s: Seq<char>, k: int)
    requires
        0 <= k <= s.len(),
        forall|i: int| 0 <= i < k ==> is_sep(#[trigger] s[i]),
        k == s.len() || !is_sep(s[k]),
    ensures
        lead_sep(s) == k,
    decreases k,
{
    if k > 0 {
        lemma_lead_sep_exact(s.drop_first(), k - 1);
    }
}

fn first_field_of(line: &Vec<char>) -> (r: Option<Vec<char>>)
    ensures
        match first_field(line@) {
            Some(f) => r matches Some(v) && v@ == f,
            None => r is None,
        },
{
    let mut a: usize = 0;
    while a < line.len() && (is_white_space(line[a]) || line[a] == ',')
        invariant
            a <= line@.len(),
            forall|i: int| 0 <= i < a ==> is_sep(#[trigger] line@[i]),
        decreases line@.len() - a,
    {
        a = a + 1;
    }
    proof {
        lemma_lead_sep_exact(line@, a as int);
    }
    if a == line.len() {
        return None;
    }
    let mut b = a;
    while b < line.len() && !(is_white_space(line[b]) || line[b] == ',')
        invariant
            a <= b <= line@.len(),
            forall|i: int| a <= i < b ==> !is_sep(#[trigger] line@[i]),
        decreases line@.len() - b,
    {
        b = b + 1;
    }
    proof {
        let rest = line@.skip(a as int);
        assert forall|i: int| 0 <= i < b - a implies !is_sep(#[trigger] rest[i]) by {
            assert(rest[i] == line@[a + i]);
        }
        if b < line@.len() {
            assert(rest[b - a] == line@[b as int]);
        }
        lemma_run_len(rest, b - a);
        assert(rest.take(b - a) =~= line@.subrange(a as int, b as int));
    }
    Some(crate::text::sub_chars(line, a, b))
}

/// True when the text looks like bare XYZ point data (every record starts
/// with a number) rather than the shape-first record language.
pub fn looks_like_xyz(text: &str) -> (r: bool)
    ensures
        r == xyz_text(text@),
{
    let recs = logical_lines(text);
    let ghost rv = recs@.map_values(|p: (usize, String)| (p.0 as nat, p.1@));
    let mut i: usize = 0;
    while i < recs.len()
        invariant
            i <= recs@.len(),
            rv == recs@.map_values(|p: (usize, String)| (p.0 as nat, p.1@)),
            rv == logical_records(text@),
            forall|j: int| 0 <= j < i ==> match first_field(#[trigger] rv[j].1) {
                Some(t) => float_literal(t),
                None => false,
            },
        decreases recs@.len() - i,
    {
        let line = chars_of(recs[i].1.as_str());
        proof {
            assert(rv[i as int].1 == line@);
        }
        let ok = match first_field_of(&line) {
            Some(t) => is_float_literal(&t),
            None => false,
        };
        if !ok {
            return false;
        }
        i = i + 1;
    }
    recs.len() > 0
}

} // verus!
