//! XYZ point text: one point per record, `x y z [size]`, fields separated
//! by white space or commas. Each point becomes a small sphere.

use vstd::prelude::*;
use crate::geometry::parser::{
    float_literal, is_float_literal, is_sep, lemma_run_len, logical_lines, logical_records, run_len,
};
use crate::geometry::record::{record_view, RecordText, RecordView};
use crate::geometry::GeometryError;
use crate::scene::GeometryType;
use crate::text::{chars_of, dec_str, is_white_space, push_decimal, string_of, sub_chars};

verus! {

/// The non-empty fields of `s` from position `i` on.
pub open spec fn fields_from(s: Seq<char>, i: int) -> Seq<Seq<char>>
    decreases s.len() - i,
{
    if i < 0 || i >= s.len() {
        Seq::empty()
    } else if is_sep(s[i]) {
        fields_from(s, i + 1)
    } else {
        let n = run_len(s.skip(i));
        if n == 0 || i + n > s.len() {
            Seq::empty()
        } else {
            seq![s.subrange(i, i + n)] + fields_from(s, i + n)
        }
    }
}

/// The non-empty fields of a record, split at white space and commas.
pub open spec fn xyz_fields(line: Seq<char>) -> Seq<Seq<char>> {
    fields_from(line, 0)
}

/// The first field that is not a number.
pub open spec fn first_non_number(fs: Seq<Seq<char>>) -> Option<Seq<char>>
    decreases fs.len(),
{
    if fs.len() == 0 {
        None
    } else if !float_literal(fs[0]) {
        Some(fs[0])
    } else {
        first_non_number(fs.drop_first())
    }
}

/// One XYZ record: a point (a small sphere) at the first three numbers,
/// sized by the fourth when there is one; further numbers are ignored.
pub open spec fn xyz_record(line: Seq<char>) -> Result<RecordView, Seq<char>> {
    let fs = xyz_fields(line);
    match first_non_number(fs) {
        Some(t) => Err("'"@ + t + "' is not a number"@),
        None => if fs.len() < 3 {
            Err("expected at least x y z, found "@ + dec_str(fs.len()) + " values"@)
        } else {
            Ok(
                RecordView {
                    shape: GeometryType::Sphere,
                    is_point: true,
                    position: seq![Some(fs[0]), Some(fs[1]), Some(fs[2])],
                    rotation: Seq::empty(),
                    scale: if fs.len() > 3 { seq![fs[3]] } else { Seq::empty() },
                    color: None,
                    label: None,
                },
            )
        },
    }
}

/// The records of an XYZ text, or the first failing record's line and
/// message.
pub open spec fn xyz_records(recs: Seq<(nat, Seq<char>)>) -> Result<Seq<RecordView>, (nat, Seq<char>)>
    decreases recs.len(),
{
    if recs.len() == 0 {
        Ok(Seq::empty())
    } else {
        match xyz_records(recs.drop_last()) {
            Err(e) => Err(e),
            Ok(prev) => match xyz_record(recs.last().1) {
                Err(m) => Err((recs.last().0, m)),
                Ok(r) => Ok(prev.push(r)),
            },
        }
    }
}

fn sep(c: char) -> (r: bool)
    ensures
        r == is_sep(c),
{
    c == ',' || is_white_space(c)
}

/// The non-empty fields of `line`.
pub fn split_fields(line: &Vec<char>) -> (r: Vec<Vec<char>>)
    ensures
        r@.map_values(|v: Vec<char>| v@) == xyz_fields(line@),
{
    let ghost s = line@;
    let mut out: Vec<Vec<char>> = Vec::new();
    let mut i: usize = 0;
    proof {
        assert(out@.map_values(|v: Vec<char>| v@) + fields_from(s, 0) =~= xyz_fields(s));
    }
    while i < line.len()
        invariant
            i <= s.len(),
            s == line@,
            out@.map_values(|v: Vec<char>| v@) + fields_from(s, i as int) == xyz_fields(s),
        decreases s.len() - i,
    {
        if sep(line[i]) {
            i = i + 1;
        } else {
            let mut j = i + 1;
            while j < line.len() && !sep(line[j])
                invariant
                    i < j <= s.len(),
                    s == line@,
                    forall|k: int| i <= k < j ==> !is_sep(#[trigger] s[k]),
                decreases s.len() - j,
            {
                j = j + 1;
            }
            proof {
                let rest = s.skip(i as int);
                assert forall|k: int| 0 <= k < j - i implies !is_sep(#[trigger] rest[k]) by {
                    assert(rest[k] == s[i + k]);
                }
                if j < s.len() {
                    assert(rest[j - i] == s[j as int]);
                }
                lemma_run_len(rest, j - i);
            }
            let field = sub_chars(line, i, j);
            let ghost before = out@;
            out.push(field);
            proof {
                assert(out@.map_values(|v: Vec<char>| v@) =~= before.map_values(|v: Vec<char>| v@).push(
                    s.subrange(i as int, j as int),
                ));
                assert(fields_from(s, i as int) == seq![s.subrange(i as int, j as int)] + fields_from(s, j as int));
                assert(out@.map_values(|v: Vec<char>| v@) + fields_from(s, j as int) =~= before.map_values(
                    |v: Vec<char>| v@,
                ) + fields_from(s, i as int));
            }
            i = j;
        }
    }
    proof {
        assert(out@.map_values(|v: Vec<char>| v@) + fields_from(s, i as int) =~= out@.map_values(|v: Vec<char>| v@));
    }
    out
}

/// Read one XYZ record.
pub fn parse_xyz_record(line: &str) -> (r: Result<RecordText, String>)
    ensures
        match xyz_record(line@) {
            Ok(v) => r matches Ok(t) && record_view(t) == v,
            Err(m) => r matches Err(e) && e@ == m,
        },
{
    let cs = chars_of(line);
    let fields = split_fields(&cs);
    let ghost fs = xyz_fields(line@);
    proof {
        assert(fs.skip(0) =~= fs);
    }
    let mut k: usize = 0;
    while k < fields.len()
        invariant
            k <= fields@.len(),
            fs == xyz_fields(line@),
            fields@.map_values(|v: Vec<char>| v@) == fs,
            first_non_number(fs) == first_non_number(fs.skip(k as int)),
        decreases fields@.len() - k,
    {
        proof {
            assert(fs.skip(k as int)[0] == fields@[k as int]@);
        }
        if !is_float_literal(&fields[k]) {
            proof {
                assert(first_non_number(fs) == Some(fields@[k as int]@));
            }
            let mut m = String::from_str("'");
            let body = string_of(&fields[k]);
            m.append(body.as_str());
            m.append("' is not a number");
            proof {
                assert(m@ =~= "'"@ + fields@[k as int]@ + "' is not a number"@);
            }
            return Err(m);
        }
        proof {
            assert(fs.skip(k as int).drop_first() =~= fs.skip(k + 1));
        }
        k = k + 1;
    }
    proof {
        assert(fs.skip(k as int) =~= Seq::<Seq<char>>::empty());
    }
    if fields.len() < 3 {
        let mut m = String::from_str("expected at least x y z, found ");
        push_decimal(&mut m, fields.len() as u64);
        m.append(" values");
        return Err(m);
    }
    let mut position: Vec<Option<String>> = Vec::new();
    position.push(Some(string_of(&fields[0])));
    position.push(Some(string_of(&fields[1])));
    position.push(Some(string_of(&fields[2])));
    let mut scale: Vec<String> = Vec::new();
    if fields.len() > 3 {
        scale.push(string_of(&fields[3]));
    }
    let r = RecordText {
        shape: GeometryType::Sphere,
        is_point: true,
        position,
        rotation: Vec::new(),
        scale,
        color: None,
        label: None,
    };
    proof {
        assert(fs[0] == fields@[0]@ && fs[1] == fields@[1]@ && fs[2] == fields@[2]@);
        assert(record_view(r).position =~= seq![Some(fs[0]), Some(fs[1]), Some(fs[2])]);
        assert(record_view(r).rotation =~= Seq::<Option<Seq<char>>>::empty());
        if fs.len() > 3 {
            assert(fs[3] == fields@[3]@);
            assert(record_view(r).scale =~= seq![fs[3]]);
        } else {
            assert(record_view(r).scale =~= Seq::<Seq<char>>::empty());
        }
    }
    Ok(r)
}

proof fn lemma_xyz_error_persists(recs: Seq<(nat, Seq<char>)>, n: int)
    requires
        0 < n <= recs.len(),
        xyz_records(recs.take(n)) is Err,
    ensures
        xyz_records(recs) == xyz_records(recs.take(n)),
    decreases recs.len() - n,
{
    if n < recs.len() {
        assert(recs.take(n + 1).drop_last() =~= recs.take(n));
        lemma_xyz_error_persists(recs, n + 1);
    } else {
        assert(recs.take(n) =~= recs);
    }
}

/// Read XYZ point text: the points of all records, or the first failing
/// record's error with its line number.
pub fn parse_xyz(text: &str) -> (r: Result<Vec<RecordText>, GeometryError>)
    ensures
        match xyz_records(logical_records(text@)) {
            Ok(vs) => r matches Ok(ts) && ts@.map_values(|t: RecordText| record_view(t)) == vs,
            Err((line, m)) => r matches Err(GeometryError::Parse { line: l, message }) && l == line && message@ == m,
        },
{
    let lines = logical_lines(text);
    let ghost recs = logical_records(text@);
    let mut out: Vec<RecordText> = Vec::new();
    proof {
        assert(recs.take(0) =~= Seq::<(nat, Seq<char>)>::empty());
        assert(out@.map_values(|t: RecordText| record_view(t)) =~= Seq::<RecordView>::empty());
    }
    let mut i: usize = 0;
    while i < lines.len()
        invariant
            i <= lines@.len(),
            recs == logical_records(text@),
            lines@.map_values(|p: (usize, String)| (p.0 as nat, p.1@)) == recs,
            xyz_records(recs.take(i as int)) == Ok::<Seq<RecordView>, (nat, Seq<char>)>(
                out@.map_values(|t: RecordText| record_view(t)),
            ),
        decreases lines@.len() - i,
    {
        let (line_no, ref line) = lines[i];
        proof {
            assert(recs.take(i + 1).drop_last() =~= recs.take(i as int));
            assert(recs.take(i + 1).last() == recs[i as int]);
            assert(recs[i as int] == (line_no as nat, line@));
        }
        match parse_xyz_record(line.as_str()) {
            Ok(t) => {
                let ghost before = out@;
                out.push(t);
                proof {
                    assert(out@.map_values(|t: RecordText| record_view(t)) =~= before.map_values(
                        |t: RecordText| record_view(t),
                    ).push(record_view(t)));
                }
            },
            Err(message) => {
                proof {
                    lemma_xyz_error_persists(recs, i + 1);
                }
                return Err(GeometryError::Parse { line: line_no, message });
            },
        }
        i = i + 1;
    }
    proof {
        assert(recs.take(recs.len() as int) =~= recs);
    }
    Ok(out)
}

} // verus!
