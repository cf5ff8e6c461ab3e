//! The `execute AddFormat ...` directive of a package: a TeX format to
//! build after the installation.
use vstd::prelude::*;
use vstd::string::*;
use crate::chars::{
    chars_eq, find_char, split_char, split_once_char, split_ranges, to_chars, word_ranges, words,
};

verus! {

/// A format directive.
#[derive(Debug, Clone, PartialEq, Eq)]
pub struct AddFormat<'a> {
    pub pkg_name: &'a str,
    pub name: &'a str,
    pub engine: &'a str,
    pub mode: Option<&'a str>,
    pub patterns: Option<&'a str>,
    pub options: Option<&'a str>,
    pub fmttriggers: Vec<&'a str>,
}

/// A format directive, its texts given as characters.
pub struct AddFormatView {
    pub pkg_name: Seq<char>,
    pub name: Seq<char>,
    pub engine: Seq<char>,
    pub mode: Option<Seq<char>>,
    pub patterns: Option<Seq<char>>,
    pub options: Option<Seq<char>>,
    pub fmttriggers: Seq<Seq<char>>,
}

pub open spec fn opt_chars(o: Option<&str>) -> Option<Seq<char>> {
    match o {
        Some(s) => Some(s@),
        None => None,
    }
}

pub open spec fn strs_chars(v: Seq<&str>) -> Seq<Seq<char>> {
    v.map_values(|s: &str| s@)
}

impl<'a> View for AddFormat<'a> {
    type V = AddFormatView;

    open spec fn view(&self) -> AddFormatView {
        AddFormatView {
            pkg_name: self.pkg_name@,
            name: self.name@,
            engine: self.engine@,
            mode: opt_chars(self.mode),
            patterns: opt_chars(self.patterns),
            options: opt_chars(self.options),
            fmttriggers: strs_chars(self.fmttriggers@),
        }
    }
}

/// The fields read so far from the words of a directive.
pub struct FormatFields {
    pub name: Option<Seq<char>>,
    pub engine: Option<Seq<char>>,
    pub mode: Option<Seq<char>>,
    pub patterns: Option<Seq<char>>,
    pub options: Option<Seq<char>>,
    pub fmttriggers: Seq<Seq<char>>,
}

/// What a word `key=value` with a non-empty value sets; other words set
/// nothing, and a later word overrides an earlier one.
pub open spec fn apply_format_word(f: FormatFields, w: Seq<char>) -> FormatFields {
    match split_once_char(w, '=') {
        None => f,
        Some((k, v)) => if v.len() == 0 {
            f
        } else if k == "name"@ {
            FormatFields { name: Some(v), ..f }
        } else if k == "engine"@ {
            FormatFields { engine: Some(v), ..f }
        } else if k == "mode"@ {
            FormatFields { mode: Some(v), ..f }
        } else if k == "patterns"@ {
            FormatFields { patterns: Some(v), ..f }
        } else if k == "options"@ {
            FormatFields { options: Some(v), ..f }
        } else if k == "fmttriggers"@ {
            FormatFields { fmttriggers: split_char(v, ','), ..f }
        } else {
            f
        },
    }
}

pub open spec fn format_fields(ws: Seq<Seq<char>>) -> FormatFields
    decreases ws.len(),
{
    if ws.len() == 0 {
        FormatFields {
            name: None,
            engine: None,
            mode: None,
            patterns: None,
            options: None,
            fmttriggers: seq![],
        }
    } else {
        apply_format_word(format_fields(ws.drop_last()), ws.last())
    }
}

/// The format directive of the words of `input`, or `None` when it names
/// no format or no engine.
pub open spec fn add_format_of(pkg_name: Seq<char>, input: Seq<char>) -> Option<AddFormatView> {
    let f = format_fields(words(input));
    match (f.name, f.engine) {
        (Some(name), Some(engine)) => Some(
            AddFormatView {
                pkg_name,
                name,
                engine,
                mode: f.mode,
                patterns: f.patterns,
                options: f.options,
                fmttriggers: f.fmttriggers,
            },
        ),
        _ => None,
    }
}

impl<'a> AddFormat<'a> {
    /// Reads the directive `input` of the package `pkg_name`: its
    /// white-space separated words `key=value` set the fields; `name` and
    /// `engine` must be set.
    pub fn parse(pkg_name: &'a str, input: &'a str) -> (r: Option<AddFormat<'a>>)
        ensures
            match add_format_of(pkg_name@, input@) {
                Some(v) => r matches Some(f) && f@ == v,
                None => r is None,
            },
    {
        let v = to_chars(input);
        let ws = word_ranges(&v);
        let ghost wv = words(input@);
        let mut name: Option<&'a str> = None;
        let mut engine: Option<&'a str> = None;
        let mut mode: Option<&'a str> = None;
        let mut patterns: Option<&'a str> = None;
        let mut options: Option<&'a str> = None;
        let mut fmttriggers: Vec<&'a str> = Vec::new();
        let mut i: usize = 0;
        assert(wv.take(0) =~= Seq::<Seq<char>>::empty());
        assert(strs_chars(fmttriggers@) =~= Seq::<Seq<char>>::empty());
        assert forall|k: int| 0 <= k < ws@.len() implies (#[trigger] ws@[k]).0 <= ws@[k].1 <= v@.len()
            && v@.subrange(ws@[k].0 as int, ws@[k].1 as int) == wv[k] by {
            assert(v@.subrange(ws@[k].0 as int, ws@[k].1 as int) == words(v@)[k]);
        }
        while i < ws.len()
            invariant
                v@ == input@,
                wv == words(input@),
                ws@.len() == wv.len(),
                forall|k: int|
                    0 <= k < ws@.len() ==> (#[trigger] ws@[k]).0 <= ws@[k].1 <= v@.len()
                        && v@.subrange(ws@[k].0 as int, ws@[k].1 as int) == wv[k],
                i <= ws@.len(),
                format_fields(wv.take(i as int)) == (FormatFields {
                    name: opt_chars(name),
                    engine: opt_chars(engine),
                    mode: opt_chars(mode),
                    patterns: opt_chars(patterns),
                    options: opt_chars(options),
                    fmttriggers: strs_chars(fmttriggers@),
                }),
            decreases ws@.len() - i,
        {
            let (s, e) = ws[i];
            let ghost w = wv[i as int];
            assert(wv.take(i + 1).drop_last() =~= wv.take(i as int));
            let eq = find_char(&v, '=', s, e);
            if eq < e && eq + 1 < e {
                let ghost key = w.take(eq - s);
                let ghost val = w.skip(eq - s + 1);
                assert(key =~= v@.subrange(s as int, eq as int));
                assert(val =~= v@.subrange(eq + 1, e as int));
                let val_s = input.substring_char(eq + 1, e);
                if chars_eq(&v, s, eq, "name") {
                    name = Some(val_s);
                } else if chars_eq(&v, s, eq, "engine") {
                    engine = Some(val_s);
                } else if chars_eq(&v, s, eq, "mode") {
                    mode = Some(val_s);
                } else if chars_eq(&v, s, eq, "patterns") {
                    patterns = Some(val_s);
                } else if chars_eq(&v, s, eq, "options") {
                    options = Some(val_s);
                } else if chars_eq(&v, s, eq, "fmttriggers") {
                    let pieces = split_ranges(&v, ',', eq + 1, e);
                    let mut list: Vec<&'a str> = Vec::new();
                    let mut j: usize = 0;
                    while j < pieces.len()
                        invariant
                            v@ == input@,
                            eq + 1 <= e <= v@.len(),
                            j <= pieces@.len(),
                            forall|k: int|
                                0 <= k < pieces@.len() ==> (#[trigger] pieces@[k]).0 <= pieces@[k].1
                                    <= v@.len() && v@.subrange(pieces@[k].0 as int, pieces@[k].1 as int)
                                    == split_char(v@.subrange(eq + 1, e as int), ',')[k],
                            strs_chars(list@) == split_char(v@.subrange(eq + 1, e as int), ',').take(
                                j as int,
                            ),
                            pieces@.len() == split_char(v@.subrange(eq + 1, e as int), ',').len(),
                        decreases pieces@.len() - j,
                    {
                        let (a, b) = pieces[j];
                        let piece = input.substring_char(a, b);
                        let ghost old_list = list@;
                        list.push(piece);
                        assert(strs_chars(list@) =~= strs_chars(old_list).push(piece@));
                        assert(split_char(v@.subrange(eq + 1, e as int), ',').take(j + 1) =~= split_char(
                            v@.subrange(eq + 1, e as int),
                            ',',
                        ).take(j as int).push(piece@));
                        j = j + 1;
                    }
                    assert(split_char(v@.subrange(eq + 1, e as int), ',').take(j as int) =~= split_char(
                        v@.subrange(eq + 1, e as int),
                        ',',
                    ));
                    fmttriggers = list;
                }
            }
            i = i + 1;
        }
        assert(wv.take(i as int) =~= wv);
        match (name, engine) {
            (Some(n), Some(en)) => Some(
                AddFormat {
                    pkg_name,
                    name: n,
                    engine: en,
                    mode,
                    patterns,
                    options,
                    fmttriggers,
                },
            ),
            _ => None,
        }
    }
}

} // verus!
