//! The geometry-string language: one record per logical line,
//! `shape x y z [s | sx sy sz] [options] [label words]`, with options
//! `#hex`, `r,g,b`, `color=`, `rot=`, `scale=`, `size=` and `label=`.

use vstd::prelude::*;
use crate::geometry::parser::{float_literal, is_float_literal, logical_lines, logical_records};
use crate::geometry::record::{
    color_text, color_view, number_triple, parse_color_text, parse_number_triple, record_view, ColorText, ColorView,
    RecordText, RecordView,
};
use crate::geometry::{shape_of, GeometryError};
use crate::llm::tokenizer::{space_joined, split_words, words};
use crate::text::{
    ascii_lower, find_from, lower_char, chars_eq_str, chars_of, chars_seqs, dec_str, find, find_chars, lower_chars_of, push_decimal, string_of,
    sub_chars,
};

verus! {

/// How many tokens from `start` on are numbers, in a row.
pub open spec fn number_run(toks: Seq<Seq<char>>, start: int) -> nat
    decreases toks.len() - start,
{
    if start < 0 || start >= toks.len() || !float_literal(toks[start]) {
        0
    } else {
        1 + number_run(toks, start + 1)
    }
}

/// The problem with the three coordinates after the shape, if any.
pub open spec fn coordinate_error(toks: Seq<Seq<char>>) -> Option<Seq<char>> {
    if toks.len() <= 1 {
        Some("expected x y z after the shape"@)
    } else if !float_literal(toks[1]) {
        Some("'"@ + toks[1] + "' is not a coordinate"@)
    } else if toks.len() <= 2 {
        Some("expected x y z after the shape"@)
    } else if !float_literal(toks[2]) {
        Some("'"@ + toks[2] + "' is not a coordinate"@)
    } else if toks.len() <= 3 {
        Some("expected x y z after the shape"@)
    } else if !float_literal(toks[3]) {
        Some("'"@ + toks[3] + "' is not a coordinate"@)
    } else {
        None
    }
}

/// What the options set so far: colour, rotation, scale and label words.
pub struct OptionsView {
    pub color: Option<ColorView>,
    pub rotation: Option<Seq<Seq<char>>>,
    pub scale: Seq<Seq<char>>,
    pub labels: Seq<Seq<char>>,
}

/// The effect of one option token on the options so far.
pub open spec fn apply_option(t: Seq<char>, st: OptionsView) -> Result<OptionsView, Seq<char>> {
    if t.len() > 0 && t[0] == '#' {
        match color_text(t) {
            Some(c) => Ok(OptionsView { color: Some(c), ..st }),
            None => Err("bad color '"@ + t + "'"@),
        }
    } else if find(t, seq!['=']) is Some {
        let e = find(t, seq!['='])->Some_0;
        let key = ascii_lower(t.take(e));
        let value = t.skip(e + 1);
        if key == "color"@ || key == "colour"@ {
            match color_text(value) {
                Some(c) => Ok(OptionsView { color: Some(c), ..st }),
                None => Err("bad color '"@ + value + "'"@),
            }
        } else if key == "rot"@ || key == "rotation"@ {
            match number_triple(value) {
                Some(p) => Ok(OptionsView { rotation: Some(p), ..st }),
                None => Err("bad rotation '"@ + value + "'"@),
            }
        } else if key == "scale"@ {
            match number_triple(value) {
                Some(p) => Ok(OptionsView { scale: p, ..st }),
                None => Err("bad scale '"@ + value + "'"@),
            }
        } else if key == "size"@ || key == "radius"@ || key == "r"@ {
            if float_literal(value) {
                Ok(OptionsView { scale: seq![value], ..st })
            } else {
                Err("bad size '"@ + value + "'"@)
            }
        } else if key == "label"@ || key == "name"@ {
            Ok(OptionsView { labels: st.labels.push(value), ..st })
        } else {
            Err("unknown option '"@ + key + "'"@)
        }
    } else if t.contains(',') {
        match color_text(t) {
            Some(c) => Ok(OptionsView { color: Some(c), ..st }),
            None => Err("bad color '"@ + t + "'"@),
        }
    } else {
        Ok(OptionsView { labels: st.labels.push(t), ..st })
    }
}

/// The options after applying `toks[start..end]` in order.
pub open spec fn apply_options(toks: Seq<Seq<char>>, start: int, end: int, st: OptionsView) -> Result<
    OptionsView,
    Seq<char>,
>
    decreases end - start,
{
    if end <= start {
        Ok(st)
    } else {
        match apply_options(toks, start, end - 1, st) {
            Err(m) => Err(m),
            Ok(s) => apply_option(toks[end - 1], s),
        }
    }
}

proof fn lemma_first_equals_sign(k: Seq<char>, v: Seq<char>, i: int)
    requires
        0 <= i <= k.len(),
        !k.contains('='),
    ensures
        find_from(k + seq!['='] + v, seq!['='], i) == Some(k.len() as int),
    decreases k.len() - i,
{
    let t = k + seq!['='] + v;
    if i < k.len() {
        assert(t[i] == k[i]);
        assert(t.subrange(i, i + 1) != seq!['=']) by {
            assert(t.subrange(i, i + 1)[0] == k[i]);
        }
        lemma_first_equals_sign(k, v, i + 1);
    } else {
        assert(t.subrange(i, i + 1) =~= seq!['=']);
    }
}

/// An option written `key=value`, with no `=` in the key, is read by its
/// key, ignoring ASCII case: `label` and `name` add the value as a label
/// word; `color` and `colour` set the colour; `rot` and `rotation` the
/// rotation; `scale` the scale; `size`, `radius` and `r` a uniform size;
/// any other key (unless the token is a `#` colour) is an unknown option.
/// Nothing else of the options changes.
pub proof fn lemma_option_keys(k: Seq<char>, v: Seq<char>, st: OptionsView)
    requires
        !k.contains('='),
    ensures
        ({
            let t = k + seq!['='] + v;
            let key = ascii_lower(k);
            &&& (key == "label"@ || key == "name"@) ==> apply_option(t, st) == Ok::<OptionsView, Seq<char>>(
                OptionsView { labels: st.labels.push(v), ..st },
            )
            &&& (key == "color"@ || key == "colour"@) ==> apply_option(t, st) == match color_text(v) {
                Some(c) => Ok(OptionsView { color: Some(c), ..st }),
                None => Err("bad color '"@ + v + "'"@),
            }
            &&& (key == "rot"@ || key == "rotation"@) ==> apply_option(t, st) == match number_triple(v) {
                Some(p) => Ok(OptionsView { rotation: Some(p), ..st }),
                None => Err("bad rotation '"@ + v + "'"@),
            }
            &&& key == "scale"@ ==> apply_option(t, st) == match number_triple(v) {
                Some(p) => Ok(OptionsView { scale: p, ..st }),
                None => Err("bad scale '"@ + v + "'"@),
            }
            &&& (key == "size"@ || key == "radius"@ || key == "r"@) ==> apply_option(t, st) == if float_literal(v) {
                Ok(OptionsView { scale: seq![v], ..st })
            } else {
                Err("bad size '"@ + v + "'"@)
            }
            &&& !(k.len() > 0 && k[0] == '#') && !seq![
                "label"@,
                "name"@,
                "color"@,
                "colour"@,
                "rot"@,
                "rotation"@,
                "scale"@,
                "size"@,
                "radius"@,
                "r"@,
            ].contains(key) ==> apply_option(t, st) == Err::<OptionsView, Seq<char>>("unknown option '"@ + key + "'"@)
        }),
{
    let t = k + seq!['='] + v;
    let key = ascii_lower(k);
    lemma_first_equals_sign(k, v, 0);
    assert(t.take(k.len() as int) =~= k);
    assert(t.skip(k.len() as int + 1) =~= v);
    let e = k.len() as int;
    assert(find(t, seq!['=']) == Some(e));
    if k.len() > 0 {
        assert(t[0] == k[0]);
        assert(key[0] == lower_char(k[0]));
    } else {
        assert(t[0] == '=');
    }
    reveal_strlit("label");
    reveal_strlit("name");
    reveal_strlit("color");
    reveal_strlit("colour");
    reveal_strlit("rot");
    reveal_strlit("rotation");
    reveal_strlit("scale");
    reveal_strlit("size");
    reveal_strlit("radius");
    reveal_strlit("r");
    let names = seq!["label"@, "name"@, "color"@, "colour"@, "rot"@, "rotation"@, "scale"@, "size"@, "radius"@, "r"@];
    if key == "label"@ { assert(names[0] == key); }
    else if key == "name"@ { assert(names[1] == key); }
    else if key == "color"@ { assert(names[2] == key); }
    else if key == "colour"@ { assert(names[3] == key); }
    else if key == "rot"@ { assert(names[4] == key); }
    else if key == "rotation"@ { assert(names[5] == key); }
    else if key == "scale"@ { assert(names[6] == key); }
    else if key == "size"@ { assert(names[7] == key); }
    else if key == "radius"@ { assert(names[8] == key); }
    else if key == "r"@ { assert(names[9] == key); }
    if !(k.len() > 0 && k[0] == '#') && !names.contains(key) {
        assert(names[0] == "label"@ && names[1] == "name"@ && names[2] == "color"@ && names[3] == "colour"@);
        assert(names[4] == "rot"@ && names[5] == "rotation"@ && names[6] == "scale"@ && names[7] == "size"@);
        assert(names[8] == "radius"@ && names[9] == "r"@);
        assert(apply_option(t, st) == Err::<OptionsView, Seq<char>>("unknown option '"@ + key + "'"@));
    }
    if key == "color"@ || key == "colour"@ {
        assert(t[0] != '#');
        assert(apply_option(t, st) == match color_text(v) {
            Some(c) => Ok(OptionsView { color: Some(c), ..st }),
            None => Err("bad color '"@ + v + "'"@),
        });
    }
    if key == "rot"@ || key == "rotation"@ {
        assert(t[0] != '#');
        assert(key != "color"@ && key != "colour"@);
    }
    if key == "scale"@ {
        assert(t[0] != '#');
        assert(key != "color"@ && key != "colour"@ && key != "rot"@ && key != "rotation"@);
    }
    if key == "size"@ || key == "radius"@ || key == "r"@ {
        assert(t[0] != '#');
        if key == "size"@ {
            assert(key[0] != "color"@[0] && key[0] != "rot"@[0] && key[1] != "scale"@[1]);
        } else if key == "radius"@ {
            assert(key[0] != "color"@[0] && key[1] != "rot"@[1] && key[1] != "rotation"@[1] && key[0] != "scale"@[0]);
        } else {
            assert(key.len() != "rot"@.len() && key.len() != "rotation"@.len() && key[0] != "scale"@[0]);
        }
        assert(key != "color"@ && key != "colour"@ && key != "rot"@ && key != "rotation"@ && key != "scale"@);
    }
    if key == "label"@ || key == "name"@ {
        assert(t[0] != '#');
        assert(apply_option(t, st) == Ok::<OptionsView, Seq<char>>(OptionsView { labels: st.labels.push(v), ..st }));
    }
}

/// The record a logical line describes, or the message of its problem.
pub open spec fn dsl_record(line: Seq<char>) -> Result<RecordView, Seq<char>> {
    let toks = words(line);
    if toks.len() == 0 {
        Err("empty record"@)
    } else if shape_of(ascii_lower(toks[0])) is None {
        Err("unknown shape '"@ + toks[0] + "'"@)
    } else if coordinate_error(toks) is Some {
        Err(coordinate_error(toks)->Some_0)
    } else {
        let (shape, is_point) = shape_of(ascii_lower(toks[0]))->Some_0;
        let run = number_run(toks, 4);
        if run != 0 && run != 1 && run != 3 {
            Err("expected 1 or 3 scale values, found "@ + dec_str(run))
        } else {
            let start = OptionsView {
                color: None,
                rotation: None,
                scale: toks.subrange(4, 4 + run as int),
                labels: Seq::empty(),
            };
            match apply_options(toks, 4 + run as int, toks.len() as int, start) {
                Err(m) => Err(m),
                Ok(st) => Ok(
                    RecordView {
                        shape,
                        is_point,
                        position: seq![Some(toks[1]), Some(toks[2]), Some(toks[3])],
                        rotation: match st.rotation {
                            Some(p) => seq![Some(p[0]), Some(p[1]), Some(p[2])],
                            None => seq![None, None, None],
                        },
                        scale: st.scale,
                        color: st.color,
                        label: if st.labels.len() > 0 {
                            Some(space_joined(st.labels))
                        } else {
                            None
                        },
                    },
                ),
            }
        }
    }
}

/// The options of a record being read.
struct OptionsText {
    color: Option<ColorText>,
    rotation: Option<Vec<String>>,
    scale: Vec<String>,
    labels: Vec<Vec<char>>,
}

spec fn options_view(o: OptionsText) -> OptionsView {
    OptionsView {
        color: match o.color {
            Some(c) => Some(color_view(c)),
            None => None,
        },
        rotation: match o.rotation {
            Some(v) => Some(v@.map_values(|s: String| s@)),
            None => None,
        },
        scale: o.scale@.map_values(|s: String| s@),
        labels: chars_seqs(o.labels@),
    }
}

fn contains_char(t: &Vec<char>, c: char) -> (r: bool)
    ensures
        r == t@.contains(c),
{
    let mut i: usize = 0;
    while i < t.len()
        invariant
            i <= t@.len(),
            forall|j: int| 0 <= j < i ==> t@[j] != c,
        decreases t@.len() - i,
    {
        if t[i] == c {
            proof {
                assert(t@[i as int] == c);
            }
            return true;
        }
        i = i + 1;
    }
    false
}

fn quoted(prefix: &str, body: &Vec<char>) -> (r: String)
    ensures
        r@ == prefix@ + body@ + "'"@,
{
    let mut m = String::from_str(prefix);
    m.append(string_of(body).as_str());
    m.append("'");
    m
}

fn apply_option_text(t: &Vec<char>, st: &mut OptionsText) -> (r: Result<(), String>)
    ensures
        match apply_option(t@, options_view(*old(st))) {
            Ok(v) => r is Ok && options_view(*final(st)) == v,
            Err(m) => r matches Err(e) && e@ == m,
        },
{
    if t.len() > 0 && t[0] == '#' {
        return match parse_color_text(string_of(t).as_str()) {
            Some(c) => {
                st.color = Some(c);
                Ok(())
            },
            None => Err(quoted("bad color '", t)),
        };
    }
    let mut eq: Vec<char> = Vec::new();
    eq.push('=');
    proof {
        assert(eq@ =~= seq!['=']);
    }
    match find_chars(t, &eq, 0) {
        Some(e) => {
            let key = lower_chars_of(string_of(&sub_chars(t, 0, e)).as_str());
            let value = sub_chars(t, e + 1, t.len());
            proof {
                assert(t@.subrange(0, e as int) =~= t@.take(e as int));
                assert(t@.subrange(e + 1, t@.len() as int) =~= t@.skip(e + 1));
            }
            if chars_eq_str(&key, "color") || chars_eq_str(&key, "colour") {
                match parse_color_text(string_of(&value).as_str()) {
                    Some(c) => {
                        st.color = Some(c);
                        Ok(())
                    },
                    None => Err(quoted("bad color '", &value)),
                }
            } else if chars_eq_str(&key, "rot") || chars_eq_str(&key, "rotation") {
                match parse_number_triple(&value) {
                    Some(p) => {
                        st.rotation = Some(p);
                        Ok(())
                    },
                    None => Err(quoted("bad rotation '", &value)),
                }
            } else if chars_eq_str(&key, "scale") {
                match parse_number_triple(&value) {
                    Some(p) => {
                        st.scale = p;
                        Ok(())
                    },
                    None => Err(quoted("bad scale '", &value)),
                }
            } else if chars_eq_str(&key, "size") || chars_eq_str(&key, "radius") || chars_eq_str(&key, "r") {
                if is_float_literal(&value) {
                    let v = string_of(&value);
                    let ghost vs = v@;
                    st.scale = vec![v];
                    proof {
                        assert(st.scale@.map_values(|s: String| s@) =~= seq![vs]);
                    }
                    Ok(())
                } else {
                    Err(quoted("bad size '", &value))
                }
            } else if chars_eq_str(&key, "label") || chars_eq_str(&key, "name") {
                let ghost before = st.labels@;
                st.labels.push(value);
                proof {
                    assert(chars_seqs(st.labels@) =~= chars_seqs(before).push(t@.skip(e + 1)));
                }
                Ok(())
            } else {
                Err(quoted("unknown option '", &key))
            }
        },
        None => {
            if contains_char(t, ',') {
                match parse_color_text(string_of(t).as_str()) {
                    Some(c) => {
                        st.color = Some(c);
                        Ok(())
                    },
                    None => Err(quoted("bad color '", t)),
                }
            } else {
                let ghost before = st.labels@;
                st.labels.push(t.clone());
                proof {
                    assert(chars_seqs(st.labels@) =~= chars_seqs(before).push(t@));
                }
                Ok(())
            }
        },
    }
}

fn join_spaced(ws: &Vec<Vec<char>>) -> (r: String)
    ensures
        r@ == space_joined(chars_seqs(ws@)),
{
    let ghost w = chars_seqs(ws@);
    let mut out = String::new();
    let mut i: usize = 0;
    while i < ws.len()
        invariant
            i <= ws@.len(),
            w == chars_seqs(ws@),
            out@ == space_joined(w.take(i as int)),
        decreases ws@.len() - i,
    {
        let ghost before = out@;
        if i > 0 {
            out.append(" ");
        }
        out.append(string_of(&ws[i]).as_str());
        proof {
            assert(w.take(i + 1).drop_last() =~= w.take(i as int));
            reveal_strlit(" ");
            if i > 0 {
                assert(out@ =~= before + seq![' '] + w[i as int]);
            } else {
                assert(w.take(1) =~= seq![w[0]]);
            }
        }
        i = i + 1;
    }
    proof {
        assert(w.take(w.len() as int) =~= w);
    }
    out
}

proof fn lemma_options_error_persists(toks: Seq<Seq<char>>, start: int, k: int, end: int, st: OptionsView)
    requires
        start <= k <= end,
        apply_options(toks, start, k, st) is Err,
    ensures
        apply_options(toks, start, end, st) == apply_options(toks, start, k, st),
    decreases end - k,
{
    if k < end {
        lemma_options_error_persists(toks, start, k, end - 1, st);
    }
}

fn not_coordinate(t: &Vec<char>) -> (r: String)
    ensures
        r@ == "'"@ + t@ + "' is not a coordinate"@,
{
    let mut m = String::from_str("'");
    m.append(string_of(t).as_str());
    m.append("' is not a coordinate");
    m
}

fn texts_between(toks: &Vec<Vec<char>>, a: usize, b: usize) -> (r: Vec<String>)
    requires
        a <= b <= toks@.len(),
    ensures
        r@.map_values(|s: String| s@) == chars_seqs(toks@).subrange(a as int, b as int),
{
    let mut out: Vec<String> = Vec::new();
    let mut i = a;
    while i < b
        invariant
            a <= i <= b,
            b <= toks@.len(),
            out@.map_values(|s: String| s@) == chars_seqs(toks@).subrange(a as int, i as int),
        decreases b - i,
    {
        let ghost before = out@;
        out.push(string_of(&toks[i]));
        proof {
            assert(out@.map_values(|s: String| s@) =~= before.map_values(|s: String| s@).push(toks@[i as int]@));
            assert(chars_seqs(toks@).subrange(a as int, i + 1) =~= chars_seqs(toks@).subrange(a as int, i as int).push(
                toks@[i as int]@,
            ));
        }
        i = i + 1;
    }
    out
}

/// Read one logical line of the geometry-string language.
pub fn parse_dsl_record(line: &str) -> (r: Result<RecordText, String>)
    ensures
        match dsl_record(line@) {
            Ok(v) => r matches Ok(t) && record_view(t) == v,
            Err(m) => r matches Err(e) && e@ == m,
        },
{
    let cs = chars_of(line);
    let toks = split_words(&cs);
    let ghost tv = words(line@);
    proof {
        assert(chars_seqs(toks@) =~= tv);
    }
    if toks.len() == 0 {
        return Err(String::from_str("empty record"));
    }
    let (shape, is_point) = match crate::geometry::parse_shape(string_of(&toks[0]).as_str()) {
        Some(x) => x,
        None => return Err(quoted("unknown shape '", &toks[0])),
    };
    if toks.len() <= 1 {
        return Err(String::from_str("expected x y z after the shape"));
    }
    if !is_float_literal(&toks[1]) {
        return Err(not_coordinate(&toks[1]));
    }
    if toks.len() <= 2 {
        return Err(String::from_str("expected x y z after the shape"));
    }
    if !is_float_literal(&toks[2]) {
        return Err(not_coordinate(&toks[2]));
    }
    if toks.len() <= 3 {
        return Err(String::from_str("expected x y z after the shape"));
    }
    if !is_float_literal(&toks[3]) {
        return Err(not_coordinate(&toks[3]));
    }
    let mut k: usize = 4;
    while k < toks.len() && is_float_literal(&toks[k])
        invariant
            4 <= k <= toks@.len(),
            chars_seqs(toks@) == tv,
            number_run(tv, 4) == (k - 4) + number_run(tv, k as int),
        decreases toks@.len() - k,
    {
        k = k + 1;
    }
    let run = k - 4;
    proof {
        assert(number_run(tv, k as int) == 0);
    }
    if run != 0 && run != 1 && run != 3 {
        let mut m = String::from_str("expected 1 or 3 scale values, found ");
        push_decimal(&mut m, run as u64);
        return Err(m);
    }
    let mut st = OptionsText { color: None, rotation: None, scale: texts_between(&toks, 4, k), labels: Vec::new() };
    let ghost start = options_view(st);
    proof {
        assert(chars_seqs(st.labels@) =~= Seq::<Seq<char>>::empty());
        assert(start == OptionsView {
            color: None,
            rotation: None,
            scale: tv.subrange(4, 4 + run as int),
            labels: Seq::empty(),
        });
    }
    let mut i = k;
    while i < toks.len()
        invariant
            k <= i <= toks@.len(),
            chars_seqs(toks@) == tv,
            tv == words(line@),
            tv.len() > 3,
            shape_of(ascii_lower(tv[0])) == Some((shape, is_point)),
            coordinate_error(tv) is None,
            run == number_run(tv, 4),
            k == 4 + run,
            run == 0 || run == 1 || run == 3,
            start == (OptionsView {
                color: None,
                rotation: None,
                scale: tv.subrange(4, 4 + run as int),
                labels: Seq::empty(),
            }),
            apply_options(tv, k as int, i as int, start) == Ok::<OptionsView, Seq<char>>(options_view(st)),
            options_view(st).rotation matches Some(p) ==> p.len() == 3,
        decreases toks@.len() - i,
    {
        let ghost sv = options_view(st);
        match apply_option_text(&toks[i], &mut st) {
            Ok(()) => {},
            Err(m) => {
                proof {
                    assert(apply_options(tv, k as int, i + 1, start) == apply_option(tv[i as int], sv));
                    lemma_options_error_persists(tv, k as int, i + 1, tv.len() as int, start);
                }
                return Err(m);
            },
        }
        i = i + 1;
    }
    let ghost sv = options_view(st);
    proof {
        assert(tv.subrange(4, 4 + run as int) == start.scale);
    }
    let rotation: Vec<Option<String>> = match st.rotation {
        Some(p) => {
            let ghost pv = p@.map_values(|s: String| s@);
            proof {
                assert(pv.len() == 3);
            }
            let x = p[0].clone();
            let y = p[1].clone();
            let z = p[2].clone();
            vec![Some(x), Some(y), Some(z)]
        },
        None => vec![None, None, None],
    };
    let label = if st.labels.len() > 0 {
        Some(join_spaced(&st.labels))
    } else {
        None
    };
    let position = vec![Some(string_of(&toks[1])), Some(string_of(&toks[2])), Some(string_of(&toks[3]))];
    let r = RecordText { shape, is_point, position, rotation, scale: st.scale, color: st.color, label };
    proof {
        let v = record_view(r);
        assert(v.position =~= seq![Some(tv[1]), Some(tv[2]), Some(tv[3])]);
        assert(v.scale == sv.scale);
        assert(v.color == sv.color);
        assert(v.label == (if sv.labels.len() > 0 {
            Some(space_joined(sv.labels))
        } else {
            None
        }));
        match sv.rotation {
            Some(pv) => {
                assert(v.rotation =~= seq![Some(pv[0]), Some(pv[1]), Some(pv[2])]);
            },
            None => {
                assert(v.rotation =~= seq![None, None, None]);
            },
        }
        assert(apply_options(tv, k as int, tv.len() as int, start) == Ok::<OptionsView, Seq<char>>(sv));
    }
    Ok(r)
}

/// The records of the logical lines, or the line number and message of the
/// first bad one.
pub open spec fn dsl_records(recs: Seq<(nat, Seq<char>)>) -> Result<Seq<RecordView>, (nat, Seq<char>)>
    decreases recs.len(),
{
    if recs.len() == 0 {
        Ok(Seq::empty())
    } else {
        match dsl_records(recs.drop_last()) {
            Err(e) => Err(e),
            Ok(prev) => match dsl_record(recs.last().1) {
                Err(m) => Err((recs.last().0, m)),
                Ok(r) => Ok(prev.push(r)),
            },
        }
    }
}

proof fn lemma_dsl_error_persists(recs: Seq<(nat, Seq<char>)>, k: int)
    requires
        0 <= k <= recs.len(),
        dsl_records(recs.take(k)) is Err,
    ensures
        dsl_records(recs) == dsl_records(recs.take(k)),
    decreases recs.len() - k,
{
    if k < recs.len() {
        assert(recs.take(k + 1).drop_last() =~= recs.take(k));
        lemma_dsl_error_persists(recs, k + 1);
    } else {
        assert(recs.take(k) =~= recs);
    }
}

/// Parse geometry-string text: one record per logical line (lines and
/// `;`-separated parts, comments dropped); a bad record is reported with its
/// line number.
pub fn parse_dsl(text: &str) -> (r: Result<Vec<RecordText>, GeometryError>)
    ensures
        match dsl_records(logical_records(text@)) {
            Ok(vs) => r matches Ok(ts) && ts@.map_values(|t: RecordText| record_view(t)) == vs,
            Err((line, m)) => r matches Err(GeometryError::Parse { line: l, message }) && l == line && message@ == m,
        },
{
    let lines = logical_lines(text);
    let ghost recs = logical_records(text@);
    let mut out: Vec<RecordText> = Vec::new();
    proof {
        assert(recs.take(0) =~= Seq::<(nat, Seq<char>)>::empty());
        assert(out@.map_values(|t: RecordText| record_view(t)) =~= Seq::<RecordView>::empty());
    }
    let mut i: usize = 0;
    while i < lines.len()
        invariant
            i <= lines@.len(),
            recs == logical_records(text@),
            lines@.map_values(|p: (usize, String)| (p.0 as nat, p.1@)) == recs,
            dsl_records(recs.take(i as int)) == Ok::<Seq<RecordView>, (nat, Seq<char>)>(
                out@.map_values(|t: RecordText| record_view(t)),
            ),
        decreases lines@.len() - i,
    {
        let (line_no, ref line) = lines[i];
        proof {
            assert(recs.take(i + 1).drop_last() =~= recs.take(i as int));
            assert(recs.take(i + 1).last() == recs[i as int]);
            assert(recs[i as int] == (line_no as nat, line@));
        }
        match parse_dsl_record(line.as_str()) {
            Ok(t) => {
                let ghost before = out@;
                out.push(t);
                proof {
                    assert(out@.map_values(|t: RecordText| record_view(t)) =~= before.map_values(
                        |t: RecordText| record_view(t),
                    ).push(record_view(t)));
                }
            },
            Err(message) => {
                proof {
                    lemma_dsl_error_persists(recs, i + 1);
                }
                return Err(GeometryError::Parse { line: line_no, message });
            },
        }
        i = i + 1;
    }
    proof {
        assert(recs.take(recs.len() as int) =~= recs);
    }
    Ok(out)
}

} // verus!
