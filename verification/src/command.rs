//! The contents of the hyphenation files that the installer writes.
use vstd::prelude::*;
use vstd::string::*;
use crate::addhyphen::{language_dat, language_dat_lua, language_def, AddHyphen, AddHyphenView};
use crate::text::push_bytes;

verus! {

/// The contents of `language.dat`, `language.def` and `language.dat.lua`.
#[derive(Debug)]
pub struct HyphenFiles {
    pub language_dat: Vec<u8>,
    pub language_def: Vec<u8>,
    pub language_dat_lua: Vec<u8>,
}

/// The entries of the directives `hs`, one after another, as `entry` writes
/// each.
pub open spec fn entries_of(hs: Seq<AddHyphenView>, entry: spec_fn(AddHyphenView) -> Seq<u8>) -> Seq<u8>
    decreases hs.len(),
{
    if hs.len() == 0 {
        seq![]
    } else {
        entries_of(hs.drop_last(), entry) + entry(hs.last())
    }
}

/// The views of the directives.
pub open spec fn hyphens_view(hs: Seq<AddHyphen>) -> Seq<AddHyphenView> {
    hs.map_values(|h: AddHyphen| h@)
}

/// Appends the `language.dat` entries of the directives `hyphens`.
fn append_dat(hyphens: &[AddHyphen], out: &mut Vec<u8>)
    ensures
        final(out)@ == old(out)@ + entries_of(hyphens_view(hyphens@), |h: AddHyphenView| language_dat(h)),
{
    let ghost hv = hyphens_view(hyphens@);
    let ghost f = |h: AddHyphenView| language_dat(h);
    let ghost o = out@;
    let mut i: usize = 0;
    assert(hv.take(0) =~= Seq::<AddHyphenView>::empty());
    assert(out@ =~= o + entries_of(hv.take(0), f));
    while i < hyphens.len()
        invariant
            i <= hyphens@.len(),
            hv == hyphens_view(hyphens@),
            f == (|h: AddHyphenView| language_dat(h)),
            out@ == o + entries_of(hv.take(i as int), f),
        decreases hyphens@.len() - i,
    {
        let h = &hyphens[i];
        let ghost before = out@;
        proof {
            assert(hv.take(i + 1).drop_last() =~= hv.take(i as int));
            assert(hv.take(i + 1).last() == h@);
        }
        h.write_language_dat(out);
        proof {
            assert(f(h@) == language_dat(h@));
            vstd::seq_lib::lemma_concat_associative(o, entries_of(hv.take(i as int), f), f(h@));
        }
        i = i + 1;
    }
    assert(hv.take(i as int) =~= hv);
}

/// Appends the `language.def` entries of the directives `hyphens`.
fn append_def(hyphens: &[AddHyphen], out: &mut Vec<u8>)
    ensures
        final(out)@ == old(out)@ + entries_of(hyphens_view(hyphens@), |h: AddHyphenView| language_def(h)),
{
    let ghost hv = hyphens_view(hyphens@);
    let ghost f = |h: AddHyphenView| language_def(h);
    let ghost o = out@;
    let mut i: usize = 0;
    assert(hv.take(0) =~= Seq::<AddHyphenView>::empty());
    assert(out@ =~= o + entries_of(hv.take(0), f));
    while i < hyphens.len()
        invariant
            i <= hyphens@.len(),
            hv == hyphens_view(hyphens@),
            f == (|h: AddHyphenView| language_def(h)),
            out@ == o + entries_of(hv.take(i as int), f),
        decreases hyphens@.len() - i,
    {
        let h = &hyphens[i];
        let ghost before = out@;
        proof {
            assert(hv.take(i + 1).drop_last() =~= hv.take(i as int));
            assert(hv.take(i + 1).last() == h@);
        }
        h.write_language_def(out);
        proof {
            assert(f(h@) == language_def(h@));
            vstd::seq_lib::lemma_concat_associative(o, entries_of(hv.take(i as int), f), f(h@));
        }
        i = i + 1;
    }
    assert(hv.take(i as int) =~= hv);
}

/// Appends the `language.dat.lua` entries of the directives `hyphens`.
fn append_lua(hyphens: &[AddHyphen], out: &mut Vec<u8>)
    ensures
        final(out)@ == old(out)@ + entries_of(hyphens_view(hyphens@), |h: AddHyphenView| language_dat_lua(h)),
{
    let ghost hv = hyphens_view(hyphens@);
    let ghost f = |h: AddHyphenView| language_dat_lua(h);
    let ghost o = out@;
    let mut i: usize = 0;
    assert(hv.take(0) =~= Seq::<AddHyphenView>::empty());
    assert(out@ =~= o + entries_of(hv.take(0), f));
    while i < hyphens.len()
        invariant
            i <= hyphens@.len(),
            hv == hyphens_view(hyphens@),
            f == (|h: AddHyphenView| language_dat_lua(h)),
            out@ == o + entries_of(hv.take(i as int), f),
        decreases hyphens@.len() - i,
    {
        let h = &hyphens[i];
        let ghost before = out@;
        proof {
            assert(hv.take(i + 1).drop_last() =~= hv.take(i as int));
            assert(hv.take(i + 1).last() == h@);
        }
        h.write_language_dat_lua(out);
        proof {
            assert(f(h@) == language_dat_lua(h@));
            vstd::seq_lib::lemma_concat_associative(o, entries_of(hv.take(i as int), f), f(h@));
        }
        i = i + 1;
    }
    assert(hv.take(i as int) =~= hv);
}

/// The three hyphenation files for the directives `hyphens`: each starts
/// with its fixed head (`dat_head`, `def_begin`, `lua_head`), then has the
/// entry of each directive in order, and ends with a blank line for
/// `language.dat`, `def_end` for `language.def`, and `}` and a newline for
/// `language.dat.lua`.
pub fn hyphen_files(
    hyphens: &[AddHyphen],
    dat_head: &[u8],
    def_begin: &[u8],
    def_end: &[u8],
    lua_head: &[u8],
) -> (r: HyphenFiles)
    ensures
        r.language_dat@ == dat_head@ + entries_of(hyphens_view(hyphens@), |h: AddHyphenView| language_dat(h))
            + "\n".spec_bytes(),
        r.language_def@ == def_begin@ + entries_of(hyphens_view(hyphens@), |h: AddHyphenView| language_def(h))
            + def_end@,
        r.language_dat_lua@ == lua_head@ + entries_of(
            hyphens_view(hyphens@),
            |h: AddHyphenView| language_dat_lua(h),
        ) + "}\n".spec_bytes(),
{
    let mut dat: Vec<u8> = Vec::new();
    let mut def: Vec<u8> = Vec::new();
    let mut lua: Vec<u8> = Vec::new();
    push_bytes(&mut dat, dat_head);
    push_bytes(&mut def, def_begin);
    push_bytes(&mut lua, lua_head);
    append_dat(hyphens, &mut dat);
    append_def(hyphens, &mut def);
    append_lua(hyphens, &mut lua);
    push_bytes(&mut dat, "\n".as_bytes());
    push_bytes(&mut def, def_end);
    push_bytes(&mut lua, "}\n".as_bytes());
    HyphenFiles { language_dat: dat, language_def: def, language_dat_lua: lua }
}

} // verus!
