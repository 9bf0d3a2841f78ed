//! Which reader a dataset file needs, and where an IDX image file keeps
//! its labels.

use vstd::prelude::*;
use crate::dataset::DatasetError;
use crate::text::{ascii_lower, chars_eq_str, chars_of, find, find_chars, find_from, lower_chars_of, string_of, sub_chars};

verus! {

/// The readers of dataset files.
#[derive(Debug, Clone, Copy, PartialEq, Eq, Structural)]
pub enum DatasetFormat {
    Npy,
    Npz,
    Csv,
    Excel,
    Idx,
}

/// The reader for a lower-cased file extension.
pub open spec fn dataset_format_of(lower: Seq<char>) -> Option<DatasetFormat> {
    if lower == "npy"@ {
        Some(DatasetFormat::Npy)
    } else if lower == "npz"@ {
        Some(DatasetFormat::Npz)
    } else if lower == "csv"@ {
        Some(DatasetFormat::Csv)
    } else if lower == "xlsx"@ || lower == "xlsm"@ || lower == "xls"@ || lower == "ods"@ {
        Some(DatasetFormat::Excel)
    } else if lower == "idx"@ || lower == "idx3-ubyte"@ || lower == "idx1-ubyte"@ || lower == "ubyte"@ {
        Some(DatasetFormat::Idx)
    } else {
        None
    }
}

/// The reader for a file extension (ASCII-case-insensitive). Parquet files
/// are recognised but this build has no Parquet reader; any other
/// extension is unknown.
pub fn dataset_format(ext: &str) -> (r: Result<DatasetFormat, DatasetError>)
    ensures
        match dataset_format_of(ascii_lower(ext@)) {
            Some(f) => r == Ok::<DatasetFormat, DatasetError>(f),
            None => r matches Err(DatasetError::Unsupported(m)) && m@ == if ascii_lower(ext@) == "parquet"@ {
                "parquet support not compiled in (enable feature `parquet-support`)"@
            } else {
                "unknown dataset extension '"@ + ascii_lower(ext@) + "'"@
            },
        },
{
    let lower = lower_chars_of(ext);
    if chars_eq_str(&lower, "npy") {
        Ok(DatasetFormat::Npy)
    } else if chars_eq_str(&lower, "npz") {
        Ok(DatasetFormat::Npz)
    } else if chars_eq_str(&lower, "csv") {
        Ok(DatasetFormat::Csv)
    } else if chars_eq_str(&lower, "xlsx") || chars_eq_str(&lower, "xlsm") || chars_eq_str(&lower, "xls")
        || chars_eq_str(&lower, "ods") {
        Ok(DatasetFormat::Excel)
    } else if chars_eq_str(&lower, "idx") || chars_eq_str(&lower, "idx3-ubyte") || chars_eq_str(&lower, "idx1-ubyte")
        || chars_eq_str(&lower, "ubyte") {
        Ok(DatasetFormat::Idx)
    } else if chars_eq_str(&lower, "parquet") {
        Err(DatasetError::Unsupported(String::from_str("parquet support not compiled in (enable feature `parquet-support`)")))
    } else {
        let mut m = String::from_str("unknown dataset extension '");
        let body = string_of(&lower);
        m.append(body.as_str());
        m.append("'");
        Err(DatasetError::Unsupported(m))
    }
}

/// A dataset file's reader is chosen by its extension alone, ignoring ASCII
/// case: `npy`, `npz` and `csv` select their own readers; `xlsx`, `xlsm`,
/// `xls` and `ods` the spreadsheet reader; `idx`, `idx3-ubyte`, `idx1-ubyte`
/// and `ubyte` the IDX reader; every other extension none.
pub proof fn lemma_dataset_extensions(ext: Seq<char>)
    ensures
        (dataset_format_of(ascii_lower(ext)) == Some(DatasetFormat::Npy)) == (ascii_lower(ext) == "npy"@),
        (dataset_format_of(ascii_lower(ext)) == Some(DatasetFormat::Npz)) == (ascii_lower(ext) == "npz"@),
        (dataset_format_of(ascii_lower(ext)) == Some(DatasetFormat::Csv)) == (ascii_lower(ext) == "csv"@),
        (dataset_format_of(ascii_lower(ext)) == Some(DatasetFormat::Excel)) == (ascii_lower(ext) == "xlsx"@
            || ascii_lower(ext) == "xlsm"@ || ascii_lower(ext) == "xls"@ || ascii_lower(ext) == "ods"@),
        (dataset_format_of(ascii_lower(ext)) == Some(DatasetFormat::Idx)) == (ascii_lower(ext) == "idx"@
            || ascii_lower(ext) == "idx3-ubyte"@ || ascii_lower(ext) == "idx1-ubyte"@ || ascii_lower(ext)
            == "ubyte"@),
{
    reveal_strlit("npy");
    reveal_strlit("npz");
    reveal_strlit("csv");
    reveal_strlit("xlsx");
    reveal_strlit("xlsm");
    reveal_strlit("xls");
    reveal_strlit("ods");
    reveal_strlit("idx");
    reveal_strlit("idx3-ubyte");
    reveal_strlit("idx1-ubyte");
    reveal_strlit("ubyte");
    let l = ascii_lower(ext);
    if l == "npz"@ {
        assert(l[2] != "npy"@[2]);
    } else if l == "csv"@ {
        assert(l[0] != "npy"@[0] && l[0] != "npz"@[0]);
    } else if l == "xls"@ || l == "ods"@ {
        assert(l[0] != "npy"@[0] && l[0] != "npz"@[0] && l[0] != "csv"@[0]);
    } else if l == "idx"@ {
        assert(l[0] != "npy"@[0] && l[0] != "npz"@[0] && l[0] != "csv"@[0] && l[0] != "xls"@[0]
            && l[0] != "ods"@[0]);
    } else if l == "xlsm"@ {
        assert(l[3] != "xlsx"@[3]);
        assert(l.len() != "npy"@.len());
    } else if l == "xlsx"@ {
        assert(l.len() != "npy"@.len());
    } else if l == "idx3-ubyte"@ || l == "idx1-ubyte"@ || l == "ubyte"@ {
        assert(l.len() != "npy"@.len() && l.len() != "xlsx"@.len());
    }
}

/// `s` from position `i` on, with every occurrence of `p` replaced by `q`,
/// occurrences taken left to right without overlap.
pub open spec fn replaced_from(s: Seq<char>, p: Seq<char>, q: Seq<char>, i: int) -> Seq<char>
    decreases s.len() + 1 - i,
{
    if p.len() == 0 || i < 0 || i > s.len() {
        Seq::empty()
    } else {
        match find_from(s, p, i) {
            Some(j) => if j < i || j + p.len() > s.len() {
                s.subrange(i, s.len() as int)
            } else {
                s.subrange(i, j) + q + replaced_from(s, p, q, j + p.len())
            },
            None => s.subrange(i, s.len() as int),
        }
    }
}

/// `s` with every occurrence of the non-empty `p` replaced by `q`, as
/// `str::replace` does.
pub open spec fn replaced(s: Seq<char>, p: Seq<char>, q: Seq<char>) -> Seq<char> {
    replaced_from(s, p, q, 0)
}

fn replace_all(s: &Vec<char>, p: &str, q: &str) -> (r: Vec<char>)
    requires
        p@.len() > 0,
    ensures
        r@ == replaced(s@, p@, q@),
{
    let pv = chars_of(p);
    let qv = chars_of(q);
    let mut out: Vec<char> = Vec::new();
    let mut i: usize = 0;
    loop
        invariant
            i <= s@.len(),
            pv@ == p@,
            qv@ == q@,
            p@.len() > 0,
            out@ + replaced_from(s@, p@, q@, i as int) == replaced(s@, p@, q@),
        decreases s@.len() + 1 - i,
    {
        match find_chars(s, &pv, i) {
            Some(j) => {
                let ghost before = out@;
                let mut head = sub_chars(s, i, j);
                out.append(&mut head);
                let mut k: usize = 0;
                while k < qv.len()
                    invariant
                        k <= qv@.len(),
                        out@ == before + s@.subrange(i as int, j as int) + qv@.take(k as int),
                    decreases qv@.len() - k,
                {
                    out.push(qv[k]);
                    proof {
                        assert(qv@.take(k + 1) =~= qv@.take(k as int).push(qv@[k as int]));
                    }
                    k = k + 1;
                }
                proof {
                    assert(qv@.take(k as int) =~= qv@);
                    assert(out@ + replaced_from(s@, p@, q@, j + p@.len()) =~= before + replaced_from(
                        s@,
                        p@,
                        q@,
                        i as int,
                    ));
                }
                i = j + pv.len();
            },
            None => {
                let ghost before = out@;
                let mut tail = sub_chars(s, i, s.len());
                out.append(&mut tail);
                proof {
                    assert(out@ =~= before + replaced_from(s@, p@, q@, i as int));
                }
                return out;
            },
        }
    }
}

/// The labels file that goes with an IDX image file, by the MNIST naming
/// convention: a name containing `images` pairs with the same name having
/// `labels` for `images` and `idx1` for `idx3`; other names have none.
pub fn idx_labels_name(file_name: &str) -> (r: Option<String>)
    ensures
        find(file_name@, "images"@) is None ==> r is None,
        find(file_name@, "images"@) is Some ==> (r matches Some(n) && n@ == replaced(
            replaced(file_name@, "images"@, "labels"@),
            "idx3"@,
            "idx1"@,
        )),
{
    let cs = chars_of(file_name);
    let images = chars_of("images");
    proof {
        reveal_strlit("images");
        reveal_strlit("idx3");
    }
    match find_chars(&cs, &images, 0) {
        None => None,
        Some(_) => {
            let step = replace_all(&cs, "images", "labels");
            let done = replace_all(&step, "idx3", "idx1");
            Some(string_of(&done))
        },
    }
}

} // verus!
