//! CSV text pieces for exporting a row subset: the header line and label
//! field escaping.

use vstd::prelude::*;
use crate::text::{chars_of, push_char};

verus! {

/// Characters that force a CSV field to be quoted.
pub open spec fn needs_quoting(s: Seq<char>) -> bool {
    exists|i: int| 0 <= i < s.len() && (s[i] == ',' || s[i] == '"' || s[i] == '\n')
}

/// The field with every `"` doubled.
pub open spec fn double_quotes(s: Seq<char>) -> Seq<char>
    decreases s.len(),
{
    if s.len() == 0 {
        Seq::empty()
    } else {
        double_quotes(s.drop_last()) + if s.last() == '"' {
            seq!['"', '"']
        } else {
            seq![s.last()]
        }
    }
}

/// A CSV field: quoted (with doubled inner quotes) when it holds a comma, a
/// quote or a line feed, else unchanged.
pub open spec fn csv_field(s: Seq<char>) -> Seq<char> {
    if needs_quoting(s) {
        seq!['"'] + double_quotes(s) + seq!['"']
    } else {
        s
    }
}

/// Escape one CSV field.
pub fn escape_csv(s: &str) -> (r: String)
    ensures
        r@ == csv_field(s@),
{
    let cs = chars_of(s);
    let mut special = false;
    let mut i: usize = 0;
    while i < cs.len()
        invariant
            i <= cs@.len(),
            cs@ == s@,
            special == exists|j: int| 0 <= j < i && (cs@[j] == ',' || cs@[j] == '"' || cs@[j] == '\n'),
        decreases cs@.len() - i,
    {
        let c = cs[i];
        if c == ',' || c == '"' || c == '\n' {
            special = true;
        }
        i = i + 1;
    }
    if !special {
        return s.to_owned();
    }
    let mut out = String::new();
    push_char(&mut out, '"');
    let mut k: usize = 0;
    while k < cs.len()
        invariant
            k <= cs@.len(),
            cs@ == s@,
            out@ == seq!['"'] + double_quotes(cs@.take(k as int)),
        decreases cs@.len() - k,
    {
        let c = cs[k];
        proof {
            assert(cs@.take(k + 1).drop_last() =~= cs@.take(k as int));
        }
        if c == '"' {
            push_char(&mut out, '"');
            push_char(&mut out, '"');
        } else {
            push_char(&mut out, c);
        }
        proof {
            assert(out@ =~= seq!['"'] + double_quotes(cs@.take(k + 1)));
        }
        k = k + 1;
    }
    push_char(&mut out, '"');
    proof {
        assert(cs@.take(cs@.len() as int) =~= cs@);
    }
    out
}

/// Column names joined by commas.
pub open spec fn joined(names: Seq<Seq<char>>) -> Seq<char>
    decreases names.len(),
{
    if names.len() == 0 {
        Seq::empty()
    } else if names.len() == 1 {
        names[0]
    } else {
        joined(names.drop_last()) + seq![','] + names.last()
    }
}

/// The header line of an export: the column names joined by commas, then
/// the label column and a line feed.
pub fn csv_header(column_names: &Vec<String>) -> (r: String)
    ensures
        r@ == joined(column_names@.map_values(|s: String| s@)) + ",label\n"@,
{
    let ghost names = column_names@.map_values(|s: String| s@);
    let mut out = String::new();
    let mut i: usize = 0;
    while i < column_names.len()
        invariant
            i <= column_names@.len(),
            names == column_names@.map_values(|s: String| s@),
            out@ == joined(names.take(i as int)),
        decreases column_names@.len() - i,
    {
        if i > 0 {
            push_char(&mut out, ',');
        }
        let cs = chars_of(column_names[i].as_str());
        let mut k: usize = 0;
        let ghost before = out@;
        while k < cs.len()
            invariant
                k <= cs@.len(),
                out@ == before + cs@.take(k as int),
            decreases cs@.len() - k,
        {
            push_char(&mut out, cs[k]);
            proof {
                assert(before + cs@.take(k + 1) =~= (before + cs@.take(k as int)).push(cs@[k as int]));
            }
            k = k + 1;
        }
        proof {
            assert(cs@.take(cs@.len() as int) =~= cs@);
            assert(names.take(i + 1).drop_last() =~= names.take(i as int));
            if i == 0 {
                assert(names.take(1)[0] == names[0]);
                assert(out@ =~= names[0]);
            } else {
                assert(out@ =~= joined(names.take(i as int)) + seq![','] + names[i as int]);
            }
        }
        i = i + 1;
    }
    proof {
        assert(names.take(names.len() as int) =~= names);
    }
    out.append(",label\n");
    out
}

} // verus!
