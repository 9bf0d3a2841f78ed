//! Which reader a geometry source needs: by file extension, or, for pasted
//! text, by its look.

use vstd::prelude::*;
use crate::geometry::dsl::{dsl_records, parse_dsl};
use crate::geometry::json::{document_records, json_document, json_records, result_view, JsonRecord};
use crate::geometry::parser::{looks_like_xyz, logical_records, xyz_text};
use crate::geometry::record::{record_view, RecordText};
use crate::geometry::xyz::{parse_xyz, xyz_records};
use crate::geometry::GeometryError;
use crate::text::{ascii_lower, chars_eq_str, chars_of, is_white_space, lower_chars_of, string_of, unicode_white_space};

verus! {

/// The readers of geometry files.
#[derive(Debug, Clone, Copy, PartialEq, Eq, Structural)]
pub enum GeometryFormat {
    Csv,
    Excel,
    Json,
    Xyz,
    /// XYZ points or the geometry-string language, told apart by content.
    Text,
}

/// The reader for a lower-cased file extension.
pub open spec fn format_of_extension(lower: Seq<char>) -> Option<GeometryFormat> {
    if lower == "csv"@ {
        Some(GeometryFormat::Csv)
    } else if lower == "xlsx"@ || lower == "xlsm"@ || lower == "xls"@ || lower == "ods"@ {
        Some(GeometryFormat::Excel)
    } else if lower == "json"@ {
        Some(GeometryFormat::Json)
    } else if lower == "xyz"@ {
        Some(GeometryFormat::Xyz)
    } else if lower == "txt"@ || lower == "geo"@ || lower == "dsl"@ {
        Some(GeometryFormat::Text)
    } else {
        None
    }
}

/// The reader for a file extension (ASCII-case-insensitive); an unknown
/// extension is unsupported.
pub fn format_for_extension(ext: &str) -> (r: Result<GeometryFormat, GeometryError>)
    ensures
        match format_of_extension(ascii_lower(ext@)) {
            Some(f) => r == Ok::<GeometryFormat, GeometryError>(f),
            None => r matches Err(GeometryError::Unsupported(m)) && m@ == "unknown geometry extension '"@ + ascii_lower(
                ext@,
            ) + "' (expected csv, xlsx, xls, ods, json, xyz, txt)"@,
        },
{
    let lower = lower_chars_of(ext);
    if chars_eq_str(&lower, "csv") {
        Ok(GeometryFormat::Csv)
    } else if chars_eq_str(&lower, "xlsx") || chars_eq_str(&lower, "xlsm") || chars_eq_str(&lower, "xls")
        || chars_eq_str(&lower, "ods") {
        Ok(GeometryFormat::Excel)
    } else if chars_eq_str(&lower, "json") {
        Ok(GeometryFormat::Json)
    } else if chars_eq_str(&lower, "xyz") {
        Ok(GeometryFormat::Xyz)
    } else if chars_eq_str(&lower, "txt") || chars_eq_str(&lower, "geo") || chars_eq_str(&lower, "dsl") {
        Ok(GeometryFormat::Text)
    } else {
        let mut m = String::from_str("unknown geometry extension '");
        let body = string_of(&lower);
        m.append(body.as_str());
        m.append("' (expected csv, xlsx, xls, ods, json, xyz, txt)");
        Err(GeometryError::Unsupported(m))
    }
}

/// A geometry file's reader is chosen by its extension alone, ignoring ASCII
/// case: `csv` the table reader; `xlsx`, `xlsm`, `xls` and `ods` the
/// spreadsheet reader; `json` and `xyz` their own readers; `txt`, `geo` and
/// `dsl` the text reader; every other extension none.
pub proof fn lemma_geometry_extensions(ext: Seq<char>)
    ensures
        (format_of_extension(ascii_lower(ext)) == Some(GeometryFormat::Csv)) == (ascii_lower(ext) == "csv"@),
        (format_of_extension(ascii_lower(ext)) == Some(GeometryFormat::Excel)) == (ascii_lower(ext) == "xlsx"@
            || ascii_lower(ext) == "xlsm"@ || ascii_lower(ext) == "xls"@ || ascii_lower(ext) == "ods"@),
        (format_of_extension(ascii_lower(ext)) == Some(GeometryFormat::Json)) == (ascii_lower(ext) == "json"@),
        (format_of_extension(ascii_lower(ext)) == Some(GeometryFormat::Xyz)) == (ascii_lower(ext) == "xyz"@),
        (format_of_extension(ascii_lower(ext)) == Some(GeometryFormat::Text)) == (ascii_lower(ext) == "txt"@
            || ascii_lower(ext) == "geo"@ || ascii_lower(ext) == "dsl"@),
{
    reveal_strlit("csv");
    reveal_strlit("xlsx");
    reveal_strlit("xlsm");
    reveal_strlit("xls");
    reveal_strlit("ods");
    reveal_strlit("json");
    reveal_strlit("xyz");
    reveal_strlit("txt");
    reveal_strlit("geo");
    reveal_strlit("dsl");
    let l = ascii_lower(ext);
    if l == "xls"@ || l == "ods"@ {
        assert(l[0] != "csv"@[0]);
    } else if l == "xlsm"@ {
        assert(l[3] != "xlsx"@[3]);
        assert(l.len() != "csv"@.len());
    } else if l == "xlsx"@ {
        assert(l.len() != "csv"@.len());
    } else if l == "json"@ {
        assert(l.len() != "csv"@.len() && l.len() != "xls"@.len() && l[0] != "xlsx"@[0] && l[0] != "xlsm"@[0]);
    } else if l == "xyz"@ {
        assert(l[0] != "csv"@[0] && l[1] != "xls"@[1] && l[0] != "ods"@[0]);
    } else if l == "txt"@ || l == "geo"@ || l == "dsl"@ {
        assert(l[0] != "csv"@[0] && l[0] != "xls"@[0] && l[0] != "ods"@[0] && l[0] != "xyz"@[0]);
    }
}

/// After any leading white space, the text opens a JSON array or object.
pub open spec fn json_like(s: Seq<char>) -> bool
    decreases s.len(),
{
    if s.len() == 0 {
        false
    } else if unicode_white_space(s[0]) {
        json_like(s.drop_first())
    } else {
        s[0] == '[' || s[0] == '{'
    }
}

/// Whether pasted text is JSON rather than plain geometry text.
pub fn looks_like_json(text: &str) -> (r: bool)
    ensures
        r == json_like(text@),
{
    let cs = chars_of(text);
    let ghost s = text@;
    let mut i: usize = 0;
    proof {
        assert(s.skip(0) =~= s);
    }
    while i < cs.len()
        invariant
            i <= cs@.len(),
            cs@ == s,
            s == text@,
            json_like(s) == json_like(s.skip(i as int)),
        decreases cs@.len() - i,
    {
        proof {
            assert(s.skip(i as int)[0] == s[i as int]);
            assert(s.skip(i as int).drop_first() =~= s.skip(i + 1));
        }
        if !is_white_space(cs[i]) {
            return cs[i] == '[' || cs[i] == '{';
        }
        i = i + 1;
    }
    proof {
        assert(s.skip(i as int).len() == 0);
    }
    false
}

/// Read plain geometry text: XYZ points when every record starts with a
/// number, the geometry-string language otherwise.
pub fn parse_auto(text: &str) -> (r: Result<Vec<RecordText>, GeometryError>)
    ensures
        match if xyz_text(text@) { xyz_records(logical_records(text@)) } else { dsl_records(logical_records(text@)) } {
            Ok(vs) => r matches Ok(ts) && ts@.map_values(|t: RecordText| record_view(t)) == vs,
            Err((line, m)) => r matches Err(GeometryError::Parse { line: l, message }) && l == line && message@ == m,
        },
{
    if looks_like_xyz(text) {
        parse_xyz(text)
    } else {
        parse_dsl(text)
    }
}

/// Records read from pasted text, by the reader that read them.
#[derive(Debug, Clone)]
pub enum TextImport {
    Json(Vec<JsonRecord>),
    Plain(Vec<RecordText>),
}

/// The number of records of an import.
pub open spec fn import_len(i: TextImport) -> nat {
    match i {
        TextImport::Json(v) => v@.len(),
        TextImport::Plain(v) => v@.len(),
    }
}

impl TextImport {
    pub fn count(&self) -> (r: usize)
        ensures
            r == import_len(*self),
    {
        match self {
            TextImport::Json(v) => v.len(),
            TextImport::Plain(v) => v.len(),
        }
    }
}

/// Read pasted text: as a JSON document when its first non-blank character
/// is `[` or `{`, otherwise as XYZ points or the geometry-string language
/// (see `parse_auto`).
pub fn load_string(text: &str) -> (r: Result<TextImport, GeometryError>)
    ensures
        json_like(text@) ==> (match json_document(text@) {
            Err(e) => r matches Err(GeometryError::Format(m)) && m@ == "invalid JSON: "@ + e,
            Ok(d) => match r {
                Ok(TextImport::Json(v)) => result_view(Ok::<Vec<JsonRecord>, GeometryError>(v)) == document_records(d),
                Ok(TextImport::Plain(_)) => false,
                Err(e) => result_view(Err::<Vec<JsonRecord>, GeometryError>(e)) == document_records(d),
            },
        }),
        !json_like(text@) ==> (match if xyz_text(text@) {
            xyz_records(logical_records(text@))
        } else {
            dsl_records(logical_records(text@))
        } {
            Ok(vs) => r matches Ok(TextImport::Plain(ts)) && ts@.map_values(|t: RecordText| record_view(t)) == vs,
            Err((line, m)) => r matches Err(GeometryError::Parse { line: l, message }) && l == line && message@ == m,
        }),
{
    if looks_like_json(text) {
        match json_records(text) {
            Ok(v) => Ok(TextImport::Json(v)),
            Err(e) => Err(e),
        }
    } else {
        match parse_auto(text) {
            Ok(v) => Ok(TextImport::Plain(v)),
            Err(e) => Err(e),
        }
    }
}

/// A layer needs at least one record: an empty import is refused.
pub fn require_records(import: TextImport) -> (r: Result<TextImport, GeometryError>)
    ensures
        import_len(import) == 0 ==> (r matches Err(GeometryError::Format(m)) && m@ == "text contains no geometries"@),
        import_len(import) > 0 ==> r == Ok::<TextImport, GeometryError>(import),
{
    if import.count() == 0 {
        Err(GeometryError::Format(String::from_str("text contains no geometries")))
    } else {
        Ok(import)
    }
}

} // verus!
