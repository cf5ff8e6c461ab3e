//! The `execute AddHyphen ...` directive of a package: a hyphenation
//! pattern set, registered in `language.dat`, `language.def` and
//! `language.dat.lua` after the installation.
use vstd::prelude::*;
use vstd::string::*;
use vstd::utf8::*;
use crate::addformat::{opt_chars, strs_chars};
use crate::chars::{
    chars_eq, find_char, split_char, split_once_char, split_ranges, to_chars, word_ranges, words,
};
use crate::text::{
    decimal, parse_unsigned, parse_unsigned_exec, push_after, push_bytes, push_decimal,
    push_decimal_after,
};

verus! {

broadcast use vstd::utf8::encode_utf8_valid_utf8;

/// A hyphenation directive.
pub struct AddHyphen<'a> {
    pkg_name: &'a str,
    name: &'a str,
    file: &'a str,
    lefthyphenmin: Option<u8>,
    righthyphenmin: Option<u8>,
    synonyms: Vec<&'a str>,
    file_patterns: Option<&'a str>,
    file_exceptions: Option<&'a str>,
    luaspecial: Option<&'a str>,
}

/// A hyphenation directive, its texts given as characters.
pub struct AddHyphenView {
    pub pkg_name: Seq<char>,
    pub name: Seq<char>,
    pub file: Seq<char>,
    pub lefthyphenmin: Option<u8>,
    pub righthyphenmin: Option<u8>,
    pub synonyms: Seq<Seq<char>>,
    pub file_patterns: Option<Seq<char>>,
    pub file_exceptions: Option<Seq<char>>,
    pub luaspecial: Option<Seq<char>>,
}

impl<'a> View for AddHyphen<'a> {
    type V = AddHyphenView;

    closed spec fn view(&self) -> AddHyphenView {
        AddHyphenView {
            pkg_name: self.pkg_name@,
            name: self.name@,
            file: self.file@,
            lefthyphenmin: self.lefthyphenmin,
            righthyphenmin: self.righthyphenmin,
            synonyms: strs_chars(self.synonyms@),
            file_patterns: opt_chars(self.file_patterns),
            file_exceptions: opt_chars(self.file_exceptions),
            luaspecial: opt_chars(self.luaspecial),
        }
    }
}

/// The fields read so far from the words of a directive.
pub struct HyphenFields {
    pub name: Option<Seq<char>>,
    pub file: Option<Seq<char>>,
    pub lefthyphenmin: Option<u8>,
    pub righthyphenmin: Option<u8>,
    pub synonyms: Seq<Seq<char>>,
    pub file_patterns: Option<Seq<char>>,
    pub file_exceptions: Option<Seq<char>>,
    pub luaspecial: Option<Seq<char>>,
}

/// `v` read as a `u8`, or `None`.
pub open spec fn parse_u8(v: Seq<char>) -> Option<u8> {
    match parse_unsigned(encode_utf8(v), 255) {
        Some(n) => Some(n as u8),
        None => None,
    }
}

/// What a word `key=value` sets: `name`, `file` and the two minima are set
/// whatever the value (a minimum that is not a `u8` becomes unset); the
/// other keys only by a non-empty value; other words set nothing.
pub open spec fn apply_hyphen_word(f: HyphenFields, w: Seq<char>) -> HyphenFields {
    match split_once_char(w, '=') {
        None => f,
        Some((k, v)) => if k == "name"@ {
            HyphenFields { name: Some(v), ..f }
        } else if k == "file"@ {
            HyphenFields { file: Some(v), ..f }
        } else if k == "lefthyphenmin"@ {
            HyphenFields { lefthyphenmin: parse_u8(v), ..f }
        } else if k == "righthyphenmin"@ {
            HyphenFields { righthyphenmin: parse_u8(v), ..f }
        } else if v.len() == 0 {
            f
        } else if k == "synonyms"@ {
            HyphenFields { synonyms: split_char(v, ','), ..f }
        } else if k == "file_patterns"@ {
            HyphenFields { file_patterns: Some(v), ..f }
        } else if k == "file_exceptions"@ {
            HyphenFields { file_exceptions: Some(v), ..f }
        } else if k == "luaspecial"@ {
            HyphenFields { luaspecial: Some(v), ..f }
        } else {
            f
        },
    }
}

pub open spec fn hyphen_fields(ws: Seq<Seq<char>>) -> HyphenFields
    decreases ws.len(),
{
    if ws.len() == 0 {
        HyphenFields {
            name: None,
            file: None,
            lefthyphenmin: None,
            righthyphenmin: None,
            synonyms: seq![],
            file_patterns: None,
            file_exceptions: None,
            luaspecial: None,
        }
    } else {
        apply_hyphen_word(hyphen_fields(ws.drop_last()), ws.last())
    }
}

/// The hyphenation directive of the words of `input`, or `None` when it
/// names no pattern set or no file.
pub open spec fn add_hyphen_of(pkg_name: Seq<char>, input: Seq<char>) -> Option<AddHyphenView> {
    let f = hyphen_fields(words(input));
    match (f.name, f.file) {
        (Some(name), Some(file)) => Some(
            AddHyphenView {
                pkg_name,
                name,
                file,
                lefthyphenmin: f.lefthyphenmin,
                righthyphenmin: f.righthyphenmin,
                synonyms: f.synonyms,
                file_patterns: f.file_patterns,
                file_exceptions: f.file_exceptions,
                luaspecial: f.luaspecial,
            },
        ),
        _ => None,
    }
}

/// The UTF-8 bytes of a text.
pub open spec fn enc(s: Seq<char>) -> Seq<u8> {
    encode_utf8(s)
}

/// A minimum, 0 when it is unset.
pub open spec fn min_or_zero(o: Option<u8>) -> u8 {
    match o {
        Some(v) => v,
        None => 0,
    }
}

/// The `=<synonym>` lines of `language.dat`.
pub open spec fn dat_synonyms(syns: Seq<Seq<char>>) -> Seq<u8>
    decreases syns.len(),
{
    if syns.len() == 0 {
        seq![]
    } else {
        dat_synonyms(syns.drop_last()) + "=".spec_bytes() + enc(syns.last()) + "\n".spec_bytes()
    }
}

/// The lines of the directive in `language.dat`.
pub open spec fn language_dat(h: AddHyphenView) -> Seq<u8> {
    "% from ".spec_bytes() + enc(h.pkg_name) + ":\n".spec_bytes() + enc(h.name) + " ".spec_bytes()
        + enc(h.file) + "\n".spec_bytes() + dat_synonyms(h.synonyms)
}

/// A line `\addlanguage{name}{file}{}{left}{right}` of `language.def`.
pub open spec fn addlanguage(name: Seq<char>, file: Seq<char>, left: u8, right: u8) -> Seq<u8> {
    "\\addlanguage".spec_bytes() + "{".spec_bytes() + enc(name) + "}".spec_bytes() + "{".spec_bytes()
        + enc(file) + "}".spec_bytes() + "{}".spec_bytes() + "{".spec_bytes() + decimal(left as nat)
        + "}".spec_bytes() + "{".spec_bytes() + decimal(right as nat) + "}".spec_bytes() + "\n".spec_bytes()
}

pub open spec fn def_synonyms(syns: Seq<Seq<char>>, file: Seq<char>, left: u8, right: u8) -> Seq<u8>
    decreases syns.len(),
{
    if syns.len() == 0 {
        seq![]
    } else {
        def_synonyms(syns.drop_last(), file, left, right) + addlanguage(syns.last(), file, left, right)
    }
}

/// The lines of the directive in `language.def`: the pattern set, then one
/// line for each synonym, with the same file and minima.
pub open spec fn language_def(h: AddHyphenView) -> Seq<u8> {
    let l = min_or_zero(h.lefthyphenmin);
    let r = min_or_zero(h.righthyphenmin);
    "% from ".spec_bytes() + enc(h.pkg_name) + ":\n".spec_bytes() + addlanguage(h.name, h.file, l, r)
        + def_synonyms(h.synonyms, h.file, l, r)
}

/// The synonyms quoted and separated by `, `.
pub open spec fn lua_synonyms(syns: Seq<Seq<char>>) -> Seq<u8>
    decreases syns.len(),
{
    if syns.len() == 0 {
        seq![]
    } else if syns.len() == 1 {
        "'".spec_bytes() + enc(syns[0]) + "'".spec_bytes()
    } else {
        lua_synonyms(syns.drop_last()) + ", ".spec_bytes() + "'".spec_bytes() + enc(syns.last())
            + "'".spec_bytes()
    }
}

/// The first lines of the table entry of the directive in
/// `language.dat.lua`, up to the opening of the synonym list.
pub open spec fn lua_head(h: AddHyphenView) -> Seq<u8> {
    "-- from ".spec_bytes() + enc(h.pkg_name) + ":\n".spec_bytes() + "\t['".spec_bytes() + enc(h.name)
        + "'] = {\n".spec_bytes() + "\t\tloader = '".spec_bytes() + enc(h.file) + "',\n".spec_bytes()
        + "\t\tlefthyphenmin = ".spec_bytes() + decimal(min_or_zero(h.lefthyphenmin) as nat)
        + ",\n".spec_bytes() + "\t\trighthyphenmin = ".spec_bytes() + decimal(
        min_or_zero(h.righthyphenmin) as nat,
    ) + ",\n".spec_bytes() + "\t\tsynonyms = { ".spec_bytes()
}

/// The optional lines of the table entry: the pattern file, the
/// hyphenation file (when either file is given) and the special loader.
pub open spec fn lua_tail(h: AddHyphenView) -> Seq<u8> {
    (match h.file_patterns {
        Some(p) => "\t\tpatterns = '".spec_bytes() + enc(p) + "',\n".spec_bytes(),
        None => seq![],
    }) + if h.file_patterns is Some || h.file_exceptions is Some {
        "\t\thyphenation = '".spec_bytes() + match h.file_exceptions {
            Some(e) => enc(e),
            None => seq![],
        } + "',\n".spec_bytes()
    } else {
        seq![]
    } + match h.luaspecial {
        Some(sp) => "\t\tspecial = '".spec_bytes() + enc(sp) + "',\n".spec_bytes(),
        None => seq![],
    }
}

/// The table entry of the directive in `language.dat.lua`.
pub open spec fn language_dat_lua(h: AddHyphenView) -> Seq<u8> {
    lua_head(h) + lua_synonyms(h.synonyms) + " },\n".spec_bytes() + lua_tail(h) + "\t},\n".spec_bytes()
}

fn push_str(out: &mut Vec<u8>, s: &str)
    ensures
        final(out)@ == old(out)@ + enc(s@),
{
    push_bytes(out, s.as_bytes());
}

impl<'a> AddHyphen<'a> {
    /// The value of a word `key=value` read as a `u8`.
    fn parse_u8_exec(s: &str) -> (r: Option<u8>)
        ensures
            r == parse_u8(s@),
    {
        let b = s.as_bytes();
        assert(b@.subrange(0, b@.len() as int) =~= b@);
        match parse_unsigned_exec(b, 0, b.len(), 255) {
            Some(n) => Some(n as u8),
            None => None,
        }
    }

    /// Reads the directive `input` of the package `pkg_name`: its
    /// white-space separated words `key=value` set the fields; `name` and
    /// `file` must be set.
    pub fn parse(pkg_name: &'a str, input: &'a str) -> (r: Option<AddHyphen<'a>>)
        ensures
            match add_hyphen_of(pkg_name@, input@) {
                Some(v) => r matches Some(h) && h@ == v,
                None => r is None,
            },
    {
        let v = to_chars(input);
        let ws = word_ranges(&v);
        let ghost wv = words(input@);
        let mut name: Option<&'a str> = None;
        let mut file: Option<&'a str> = None;
        let mut lefthyphenmin: Option<u8> = None;
        let mut righthyphenmin: Option<u8> = None;
        let mut synonyms: Vec<&'a str> = Vec::new();
        let mut file_patterns: Option<&'a str> = None;
        let mut file_exceptions: Option<&'a str> = None;
        let mut luaspecial: Option<&'a str> = None;
        let mut i: usize = 0;
        assert(wv.take(0) =~= Seq::<Seq<char>>::empty());
        assert(strs_chars(synonyms@) =~= Seq::<Seq<char>>::empty());
        assert forall|k: int| 0 <= k < ws@.len() implies (#[trigger] ws@[k]).0 <= ws@[k].1 <= v@.len()
            && v@.subrange(ws@[k].0 as int, ws@[k].1 as int) == wv[k] by {
            assert(v@.subrange(ws@[k].0 as int, ws@[k].1 as int) == words(v@)[k]);
        }
        while i < ws.len()
            invariant
                v@ == input@,
                wv == words(input@),
                ws@.len() == wv.len(),
                forall|k: int|
                    0 <= k < ws@.len() ==> (#[trigger] ws@[k]).0 <= ws@[k].1 <= v@.len()
                        && v@.subrange(ws@[k].0 as int, ws@[k].1 as int) == wv[k],
                i <= ws@.len(),
                hyphen_fields(wv.take(i as int)) == (HyphenFields {
                    name: opt_chars(name),
                    file: opt_chars(file),
                    lefthyphenmin,
                    righthyphenmin,
                    synonyms: strs_chars(synonyms@),
                    file_patterns: opt_chars(file_patterns),
                    file_exceptions: opt_chars(file_exceptions),
                    luaspecial: opt_chars(luaspecial),
                }),
            decreases ws@.len() - i,
        {
            let (s, e) = ws[i];
            let ghost w = wv[i as int];
            assert(wv.take(i + 1).drop_last() =~= wv.take(i as int));
            let eq = find_char(&v, '=', s, e);
            if eq < e {
                let ghost key = w.take(eq - s);
                let ghost val = w.skip(eq - s + 1);
                assert(key =~= v@.subrange(s as int, eq as int));
                assert(val =~= v@.subrange(eq + 1, e as int));
                let val_s = input.substring_char(eq + 1, e);
                if chars_eq(&v, s, eq, "name") {
                    name = Some(val_s);
                } else if chars_eq(&v, s, eq, "file") {
                    file = Some(val_s);
                } else if chars_eq(&v, s, eq, "lefthyphenmin") {
                    lefthyphenmin = AddHyphen::parse_u8_exec(val_s);
                } else if chars_eq(&v, s, eq, "righthyphenmin") {
                    righthyphenmin = AddHyphen::parse_u8_exec(val_s);
                } else if eq + 1 == e {
                } else if chars_eq(&v, s, eq, "synonyms") {
                    let pieces = split_ranges(&v, ',', eq + 1, e);
                    let mut list: Vec<&'a str> = Vec::new();
                    let mut j: usize = 0;
                    while j < pieces.len()
                        invariant
                            v@ == input@,
                            eq + 1 <= e <= v@.len(),
                            j <= pieces@.len(),
                            forall|k: int|
                                0 <= k < pieces@.len() ==> (#[trigger] pieces@[k]).0 <= pieces@[k].1
                                    <= v@.len() && v@.subrange(pieces@[k].0 as int, pieces@[k].1 as int)
                                    == split_char(v@.subrange(eq + 1, e as int), ',')[k],
                            strs_chars(list@) == split_char(v@.subrange(eq + 1, e as int), ',').take(
                                j as int,
                            ),
                            pieces@.len() == split_char(v@.subrange(eq + 1, e as int), ',').len(),
                        decreases pieces@.len() - j,
                    {
                        let (a, b) = pieces[j];
                        let piece = input.substring_char(a, b);
                        let ghost old_list = list@;
                        list.push(piece);
                        assert(strs_chars(list@) =~= strs_chars(old_list).push(piece@));
                        assert(split_char(v@.subrange(eq + 1, e as int), ',').take(j + 1) =~= split_char(
                            v@.subrange(eq + 1, e as int),
                            ',',
                        ).take(j as int).push(piece@));
                        j = j + 1;
                    }
                    assert(split_char(v@.subrange(eq + 1, e as int), ',').take(j as int) =~= split_char(
                        v@.subrange(eq + 1, e as int),
                        ',',
                    ));
                    synonyms = list;
                } else if chars_eq(&v, s, eq, "file_patterns") {
                    file_patterns = Some(val_s);
                } else if chars_eq(&v, s, eq, "file_exceptions") {
                    file_exceptions = Some(val_s);
                } else if chars_eq(&v, s, eq, "luaspecial") {
                    luaspecial = Some(val_s);
                }
            }
            i = i + 1;
        }
        assert(wv.take(i as int) =~= wv);
        match (name, file) {
            (Some(n), Some(f)) => Some(
                AddHyphen {
                    pkg_name,
                    name: n,
                    file: f,
                    lefthyphenmin,
                    righthyphenmin,
                    synonyms,
                    file_patterns,
                    file_exceptions,
                    luaspecial,
                },
            ),
            _ => None,
        }
    }
}

impl<'a> AddHyphen<'a> {
    /// Appends the lines of the directive in `language.dat`.
    pub fn write_language_dat(&self, out: &mut Vec<u8>)
        ensures
            final(out)@ == old(out)@ + language_dat(self@),
    {
        let ghost o = out@;
        push_str(out, "% from ");
        push_str(out, self.pkg_name);
        push_str(out, ":\n");
        push_str(out, self.name);
        push_str(out, " ");
        push_str(out, self.file);
        push_str(out, "\n");
        let ghost head = out@;
        let ghost syns = strs_chars(self.synonyms@);
        let mut i: usize = 0;
        assert(syns.take(0) =~= Seq::<Seq<char>>::empty());
        assert(head =~= head + dat_synonyms(syns.take(0)));
        while i < self.synonyms.len()
            invariant
                i <= self.synonyms@.len(),
                syns == strs_chars(self.synonyms@),
                out@ == head + dat_synonyms(syns.take(i as int)),
            decreases self.synonyms@.len() - i,
        {
            let syn = self.synonyms[i];
            push_str(out, "=");
            push_str(out, syn);
            push_str(out, "\n");
            assert(syns.take(i + 1).drop_last() =~= syns.take(i as int));
            assert(out@ =~= head + dat_synonyms(syns.take(i + 1)));
            i = i + 1;
        }
        assert(syns.take(i as int) =~= syns);
        assert(out@ =~= o + language_dat(self@));
    }

    /// Appends a line `\addlanguage{name}{file}{}{left}{right}`.
    fn write_addlanguage(out: &mut Vec<u8>, name: &str, file: &str, left: u8, right: u8)
        ensures
            final(out)@ == old(out)@ + addlanguage(name@, file@, left, right),
    {
        let ghost o = out@;
        push_str(out, "\\addlanguage");
        push_str(out, "{");
        push_str(out, name);
        push_str(out, "}");
        push_str(out, "{");
        push_str(out, file);
        push_str(out, "}");
        push_str(out, "{}");
        push_str(out, "{");
        push_decimal(out, left as u64);
        push_str(out, "}");
        push_str(out, "{");
        push_decimal(out, right as u64);
        push_str(out, "}");
        push_str(out, "\n");
        assert(out@ =~= o + addlanguage(name@, file@, left, right));
    }

    /// Appends the lines of the directive in `language.def`.
    pub fn write_language_def(&self, out: &mut Vec<u8>)
        ensures
            final(out)@ == old(out)@ + language_def(self@),
    {
        let ghost o = out@;
        let left = match self.lefthyphenmin {
            Some(v) => v,
            None => 0,
        };
        let right = match self.righthyphenmin {
            Some(v) => v,
            None => 0,
        };
        push_str(out, "% from ");
        push_str(out, self.pkg_name);
        push_str(out, ":\n");
        AddHyphen::write_addlanguage(out, self.name, self.file, left, right);
        let ghost head = out@;
        let ghost syns = strs_chars(self.synonyms@);
        let mut i: usize = 0;
        assert(syns.take(0) =~= Seq::<Seq<char>>::empty());
        assert(head =~= head + def_synonyms(syns.take(0), self.file@, left, right));
        while i < self.synonyms.len()
            invariant
                i <= self.synonyms@.len(),
                syns == strs_chars(self.synonyms@),
                out@ == head + def_synonyms(syns.take(i as int), self.file@, left, right),
            decreases self.synonyms@.len() - i,
        {
            let syn = self.synonyms[i];
            AddHyphen::write_addlanguage(out, syn, self.file, left, right);
            assert(syns.take(i + 1).drop_last() =~= syns.take(i as int));
            assert(out@ =~= head + def_synonyms(syns.take(i + 1), self.file@, left, right));
            i = i + 1;
        }
        assert(syns.take(i as int) =~= syns);
        assert(out@ =~= o + language_def(self@));
    }

    /// Appends the quoted synonyms, separated by `, `.
    fn write_lua_synonyms(&self, out: &mut Vec<u8>)
        ensures
            final(out)@ == old(out)@ + lua_synonyms(self@.synonyms),
    {
        let ghost head = out@;
        let ghost syns = strs_chars(self.synonyms@);
        assert(syns == self@.synonyms);
        let mut i: usize = 0;
        assert(syns.take(0) =~= Seq::<Seq<char>>::empty());
        assert(head =~= head + lua_synonyms(syns.take(0)));
        while i < self.synonyms.len()
            invariant
                i <= self.synonyms@.len(),
                syns == strs_chars(self.synonyms@),
                out@ == head + lua_synonyms(syns.take(i as int)),
            decreases self.synonyms@.len() - i,
        {
            let syn = self.synonyms[i];
            if i > 0 {
                push_str(out, ", ");
            }
            push_str(out, "'");
            push_str(out, syn);
            push_str(out, "'");
            assert(syns.take(i + 1).drop_last() =~= syns.take(i as int));
            if i == 0 {
                assert(syns.take(1)[0] == syn@);
            }
            assert(out@ =~= head + lua_synonyms(syns.take(i + 1)));
            i = i + 1;
        }
        assert(syns.take(i as int) =~= syns);
    }

    /// Appends the optional lines of the table entry.
    fn write_lua_tail(&self, out: &mut Vec<u8>)
        ensures
            final(out)@ == old(out)@ + lua_tail(self@),
    {
        let ghost mid = out@;
        match self.file_patterns {
            Some(p) => {
                push_str(out, "\t\tpatterns = '");
                push_str(out, p);
                push_str(out, "',\n");
            },
            None => {},
        }
        let ghost mid2 = out@;
        if self.file_patterns.is_some() || self.file_exceptions.is_some() {
            let excep = match self.file_exceptions {
                Some(e) => e,
                None => "",
            };
            proof {
                reveal_strlit("");
            }
            push_str(out, "\t\thyphenation = '");
            push_str(out, excep);
            push_str(out, "',\n");
        }
        let ghost mid3 = out@;
        match self.luaspecial {
            Some(sp) => {
                push_str(out, "\t\tspecial = '");
                push_str(out, sp);
                push_str(out, "',\n");
            },
            None => {},
        }
        proof {
            let h = self@;
            let pat = match h.file_patterns {
                Some(p) => "\t\tpatterns = '".spec_bytes() + enc(p) + "',\n".spec_bytes(),
                None => Seq::<u8>::empty(),
            };
            let hy = if h.file_patterns is Some || h.file_exceptions is Some {
                "\t\thyphenation = '".spec_bytes() + match h.file_exceptions {
                    Some(e) => enc(e),
                    None => Seq::<u8>::empty(),
                } + "',\n".spec_bytes()
            } else {
                Seq::<u8>::empty()
            };
            let spc = match h.luaspecial {
                Some(sp) => "\t\tspecial = '".spec_bytes() + enc(sp) + "',\n".spec_bytes(),
                None => Seq::<u8>::empty(),
            };
            assert(mid2 =~= mid + pat);
            assert(mid3 =~= mid2 + hy);
            assert(out@ =~= mid3 + spc);
            assert(out@ =~= mid + lua_tail(h));
        }
    }

    /// Appends the first lines of the table entry.
    fn write_lua_head(&self, out: &mut Vec<u8>)
        ensures
            final(out)@ == old(out)@ + lua_head(self@),
    {
        let left = match self.lefthyphenmin {
            Some(v) => v,
            None => 0,
        };
        let right = match self.righthyphenmin {
            Some(v) => v,
            None => 0,
        };
        let ghost o = out@;
        assert(out@ =~= o + Seq::<u8>::empty());
        push_after(out, "-- from ", Ghost(o), Ghost(Seq::<u8>::empty()));
        push_after(out, self.pkg_name, Ghost(o), Ghost(Seq::<u8>::empty() + "-- from ".spec_bytes()));
        push_after(out, ":\n", Ghost(o), Ghost(Seq::<u8>::empty() + "-- from ".spec_bytes() + self.pkg_name.spec_bytes()));
        push_after(out, "\t['", Ghost(o), Ghost(Seq::<u8>::empty() + "-- from ".spec_bytes() + self.pkg_name.spec_bytes() + ":\n".spec_bytes()));
        push_after(out, self.name, Ghost(o), Ghost(Seq::<u8>::empty() + "-- from ".spec_bytes() + self.pkg_name.spec_bytes() + ":\n".spec_bytes() + "\t['".spec_bytes()));
        push_after(out, "'] = {\n", Ghost(o), Ghost(Seq::<u8>::empty() + "-- from ".spec_bytes() + self.pkg_name.spec_bytes() + ":\n".spec_bytes() + "\t['".spec_bytes() + self.name.spec_bytes()));
        push_after(out, "\t\tloader = '", Ghost(o), Ghost(Seq::<u8>::empty() + "-- from ".spec_bytes() + self.pkg_name.spec_bytes() + ":\n".spec_bytes() + "\t['".spec_bytes() + self.name.spec_bytes() + "'] = {\n".spec_bytes()));
        push_after(out, self.file, Ghost(o), Ghost(Seq::<u8>::empty() + "-- from ".spec_bytes() + self.pkg_name.spec_bytes() + ":\n".spec_bytes() + "\t['".spec_bytes() + self.name.spec_bytes() + "'] = {\n".spec_bytes() + "\t\tloader = '".spec_bytes()));
        push_after(out, "',\n", Ghost(o), Ghost(Seq::<u8>::empty() + "-- from ".spec_bytes() + self.pkg_name.spec_bytes() + ":\n".spec_bytes() + "\t['".spec_bytes() + self.name.spec_bytes() + "'] = {\n".spec_bytes() + "\t\tloader = '".spec_bytes() + self.file.spec_bytes()));
        push_after(out, "\t\tlefthyphenmin = ", Ghost(o), Ghost(Seq::<u8>::empty() + "-- from ".spec_bytes() + self.pkg_name.spec_bytes() + ":\n".spec_bytes() + "\t['".spec_bytes() + self.name.spec_bytes() + "'] = {\n".spec_bytes() + "\t\tloader = '".spec_bytes() + self.file.spec_bytes() + "',\n".spec_bytes()));
        push_decimal_after(out, left as u64, Ghost(o), Ghost(Seq::<u8>::empty() + "-- from ".spec_bytes() + self.pkg_name.spec_bytes() + ":\n".spec_bytes() + "\t['".spec_bytes() + self.name.spec_bytes() + "'] = {\n".spec_bytes() + "\t\tloader = '".spec_bytes() + self.file.spec_bytes() + "',\n".spec_bytes() + "\t\tlefthyphenmin = ".spec_bytes()));
        push_after(out, ",\n", Ghost(o), Ghost(Seq::<u8>::empty() + "-- from ".spec_bytes() + self.pkg_name.spec_bytes() + ":\n".spec_bytes() + "\t['".spec_bytes() + self.name.spec_bytes() + "'] = {\n".spec_bytes() + "\t\tloader = '".spec_bytes() + self.file.spec_bytes() + "',\n".spec_bytes() + "\t\tlefthyphenmin = ".spec_bytes() + decimal(left as nat)));
        push_after(out, "\t\trighthyphenmin = ", Ghost(o), Ghost(Seq::<u8>::empty() + "-- from ".spec_bytes() + self.pkg_name.spec_bytes() + ":\n".spec_bytes() + "\t['".spec_bytes() + self.name.spec_bytes() + "'] = {\n".spec_bytes() + "\t\tloader = '".spec_bytes() + self.file.spec_bytes() + "',\n".spec_bytes() + "\t\tlefthyphenmin = ".spec_bytes() + decimal(left as nat) + ",\n".spec_bytes()));
        push_decimal_after(out, right as u64, Ghost(o), Ghost(Seq::<u8>::empty() + "-- from ".spec_bytes() + self.pkg_name.spec_bytes() + ":\n".spec_bytes() + "\t['".spec_bytes() + self.name.spec_bytes() + "'] = {\n".spec_bytes() + "\t\tloader = '".spec_bytes() + self.file.spec_bytes() + "',\n".spec_bytes() + "\t\tlefthyphenmin = ".spec_bytes() + decimal(left as nat) + ",\n".spec_bytes() + "\t\trighthyphenmin = ".spec_bytes()));
        push_after(out, ",\n", Ghost(o), Ghost(Seq::<u8>::empty() + "-- from ".spec_bytes() + self.pkg_name.spec_bytes() + ":\n".spec_bytes() + "\t['".spec_bytes() + self.name.spec_bytes() + "'] = {\n".spec_bytes() + "\t\tloader = '".spec_bytes() + self.file.spec_bytes() + "',\n".spec_bytes() + "\t\tlefthyphenmin = ".spec_bytes() + decimal(left as nat) + ",\n".spec_bytes() + "\t\trighthyphenmin = ".spec_bytes() + decimal(right as nat)));
        push_after(out, "\t\tsynonyms = { ", Ghost(o), Ghost(Seq::<u8>::empty() + "-- from ".spec_bytes() + self.pkg_name.spec_bytes() + ":\n".spec_bytes() + "\t['".spec_bytes() + self.name.spec_bytes() + "'] = {\n".spec_bytes() + "\t\tloader = '".spec_bytes() + self.file.spec_bytes() + "',\n".spec_bytes() + "\t\tlefthyphenmin = ".spec_bytes() + decimal(left as nat) + ",\n".spec_bytes() + "\t\trighthyphenmin = ".spec_bytes() + decimal(right as nat) + ",\n".spec_bytes()));
        assert(Seq::<u8>::empty() + "-- from ".spec_bytes() =~= "-- from ".spec_bytes());
    }

    /// Appends the table entry of the directive in `language.dat.lua`.
    pub fn write_language_dat_lua(&self, out: &mut Vec<u8>)
        ensures
            final(out)@ == old(out)@ + language_dat_lua(self@),
    {
        let ghost o = out@;
        self.write_lua_head(out);
        let ghost a1 = out@;
        self.write_lua_synonyms(out);
        let ghost a2 = out@;
        push_str(out, " },\n");
        let ghost a3 = out@;
        self.write_lua_tail(out);
        let ghost a4 = out@;
        push_str(out, "\t},\n");
        proof {
            let h = lua_head(self@);
            let sy = lua_synonyms(self@.synonyms);
            let t = lua_tail(self@);
            assert(out@ == o + h + sy + enc(" },\n"@) + t + enc("\t},\n"@));
            assert(o + h + sy + enc(" },\n"@) + t + enc("\t},\n"@) =~= o + (h + sy + " },\n".spec_bytes() + t
                + "\t},\n".spec_bytes()));
        }
    }
}

} // verus!
