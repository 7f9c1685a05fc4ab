//! Pig latin: the first grapheme of each word moves to its end, followed by `ay`; a word that
//! starts with a vowel keeps its first grapheme and gets `-hay`.
use vstd::prelude::*;
use unicode_segmentation::UnicodeSegmentation;
use crate::text::{same_text, slice_texts, split_words, words};

verus! {

/// The extended grapheme clusters of a text, in order, as `UnicodeSegmentation::graphemes`
/// gives them.
pub uninterp spec fn graphemes_of(s: Seq<char>) -> Seq<Seq<char>>;

/// Relies on `UnicodeSegmentation::graphemes` with extended clusters: the grapheme clusters of
/// the text in order, which depend on the text alone.
#[verifier::external_body]
fn graphemes<'a>(s: &'a str) -> (r: Vec<&'a str>)
    ensures
        slice_texts(r@) == graphemes_of(s@),
{
    UnicodeSegmentation::graphemes(s, true).collect::<Vec<&str>>()
}

/// The texts of `gs` one after another.
pub open spec fn concat(gs: Seq<Seq<char>>) -> Seq<char>
    decreases gs.len(),
{
    if gs.len() == 0 {
        seq![]
    } else {
        concat(gs.drop_last()) + gs.last()
    }
}

/// One of the ten plain vowels, small or capital.
pub open spec fn is_vowel(g: Seq<char>) -> bool {
    ||| g == "a"@
    ||| g == "e"@
    ||| g == "i"@
    ||| g == "o"@
    ||| g == "u"@
    ||| g == "A"@
    ||| g == "E"@
    ||| g == "I"@
    ||| g == "O"@
    ||| g == "U"@
}

/// The pig latin form of a word with graphemes `gs`.
pub open spec fn latin_word(gs: Seq<Seq<char>>) -> Seq<char> {
    if is_vowel(gs[0]) {
        concat(gs) + "-"@ + "h"@ + "ay"@
    } else {
        concat(gs.drop_first()) + "-"@ + gs[0] + "ay"@
    }
}

/// The pig latin form of the words `ws`, each preceded by a space; a word without graphemes is
/// left out.
pub open spec fn pig_latin_spec(ws: Seq<Seq<char>>) -> Seq<char>
    decreases ws.len(),
{
    if ws.len() == 0 {
        seq![]
    } else {
        let before = pig_latin_spec(ws.drop_last());
        let gs = graphemes_of(ws.last());
        if gs.len() == 0 {
            before
        } else {
            before + seq![' '] + latin_word(gs)
        }
    }
}

fn vowel(g: &str) -> (r: bool)
    ensures
        r == is_vowel(g@),
{
    same_text(g, "a") || same_text(g, "e") || same_text(g, "i") || same_text(g, "o") || same_text(
        g,
        "u",
    ) || same_text(g, "A") || same_text(g, "E") || same_text(g, "I") || same_text(g, "O")
        || same_text(g, "U")
}

/// Appends the texts of `gs` from position `start` on to `out`.
fn append_from(out: &mut String, gs: &Vec<&str>, start: usize)
    requires
        start <= gs.len(),
    ensures
        final(out)@ == old(out)@ + concat(slice_texts(gs@).subrange(start as int, gs.len() as int)),
{
    let ghost t = slice_texts(gs@);
    let ghost base = out@;
    let mut i: usize = start;
    assert(t.subrange(start as int, start as int) =~= Seq::<Seq<char>>::empty());
    assert(base + concat(Seq::<Seq<char>>::empty()) =~= base);
    while i < gs.len()
        invariant
            t == slice_texts(gs@),
            start <= i <= gs.len(),
            out@ == base + concat(t.subrange(start as int, i as int)),
        decreases gs.len() - i,
    {
        assert(t.subrange(start as int, i + 1).drop_last() =~= t.subrange(start as int, i as int));
        assert(t.subrange(start as int, i + 1).last() == gs@[i as int]@);
        out.append(gs[i]);
        assert(out@ =~= base + concat(t.subrange(start as int, i + 1)));
        i = i + 1;
    }
}

/// The pig latin form of a word, given its graphemes.
pub fn pig_latin_word(gs: &Vec<&str>) -> (r: String)
    requires
        gs.len() > 0,
    ensures
        r@ == latin_word(slice_texts(gs@)),
{
    let ghost t = slice_texts(gs@);
    let mut r = String::new();
    if vowel(gs[0]) {
        append_from(&mut r, gs, 0);
        assert(t.subrange(0, gs.len() as int) =~= t);
        r.append("-");
        r.append("h");
        r.append("ay");
        assert(r@ =~= concat(t) + "-"@ + "h"@ + "ay"@);
    } else {
        append_from(&mut r, gs, 1);
        assert(t.subrange(1, gs.len() as int) =~= t.drop_first());
        r.append("-");
        r.append(gs[0]);
        r.append("ay");
        assert(r@ =~= concat(t.drop_first()) + "-"@ + t[0] + "ay"@);
    }
    r
}

/// `txt` in pig latin: each word, in order, after a space.
pub fn to_pig_latin(txt: &str) -> (r: String)
    ensures
        r@ == pig_latin_spec(words(txt@)),
{
    let ws = split_words(txt);
    let ghost t = slice_texts(ws@);
    let mut r = String::new();
    let mut i: usize = 0;
    assert(t.take(0) =~= Seq::<Seq<char>>::empty());
    while i < ws.len()
        invariant
            t == slice_texts(ws@),
            t == words(txt@),
            i <= ws.len(),
            r@ == pig_latin_spec(t.take(i as int)),
        decreases ws.len() - i,
    {
        assert(t.take(i + 1).drop_last() =~= t.take(i as int));
        assert(t.take(i + 1).last() == ws@[i as int]@);
        let gs = graphemes(ws[i]);
        if gs.len() > 0 {
            let word = pig_latin_word(&gs);
            proof {
                reveal_strlit(" ");
            }
            r.append(" ");
            r.append(word.as_str());
            assert(r@ =~= pig_latin_spec(t.take(i as int)) + seq![' '] + latin_word(
                graphemes_of(ws@[i as int]@),
            ));
        }
        i = i + 1;
    }
    assert(t.take(ws.len() as int) =~= t);
    r
}

} // verus!
