use vstd::prelude::*;

use crate::life::file_format::rle::{rle_ok, rle_pattern, rle_readable, rle_text, rows_taggable};
use crate::pattern::Pattern;

verus! {

/// The list of strings that the RON text `text` holds (`ron::from_str::<Vec<String>>`), or
/// `None` where it is not such a list.
pub uninterp spec fn ron_string_list(text: Seq<char>) -> Option<Seq<Seq<char>>>;

/// The pretty RON text of a list of strings (`ron::ser::to_string_pretty` with the default
/// configuration), or `None` where it cannot be written.
pub uninterp spec fn ron_pretty_strings(items: Seq<Seq<char>>) -> Option<Seq<char>>;

/// `ron::from_str::<Vec<String>>`: the contract claims only that the result is the name
/// `ron_string_list` of the text (a function of the text alone).
#[verifier::external_body]
pub(crate) fn parse_ron_strings(text: &str) -> (r: Option<Vec<String>>)
    ensures
        r is None <==> ron_string_list(text@) is None,
        r matches Some(v) ==> ron_string_list(text@) == Some(v@.map_values(|s: String| s@)),
{
    match ron::from_str::<Vec<String>>(text) {
        Ok(v) => Some(v),
        Err(_) => None,
    }
}

/// `ron::ser::to_string_pretty` of a list of strings with the default configuration: the
/// contract claims only that the result is the name `ron_pretty_strings` of the strings.
#[verifier::external_body]
pub(crate) fn ron_pretty(items: &Vec<String>) -> (r: Option<String>)
    ensures
        r is None <==> ron_pretty_strings(items@.map_values(|s: String| s@)) is None,
        r matches Some(t) ==> ron_pretty_strings(items@.map_values(|s: String| s@)) == Some(t@),
{
    match ron::ser::to_string_pretty(items, ron::ser::PrettyConfig::default()) {
        Ok(t) => Some(t),
        Err(_) => None,
    }
}

/// Why a saved library could not be read.
#[derive(Clone, Copy, Debug, PartialEq, Eq, Structural)]
pub enum SaveReadError {
    /// The save is not a RON list of strings.
    NotAList,
    /// The save holds an RLE text the reader does not take.
    BadPattern,
}

/// The patterns of a saved library: the RLE texts the save holds, each read with
/// `Pattern::from_rle`.
pub fn patterns_from_save(text: &str) -> (r: Result<Vec<Pattern>, SaveReadError>)
    ensures
        r == Err::<Vec<Pattern>, SaveReadError>(SaveReadError::NotAList) <==> ron_string_list(text@) is None,
        r == Err::<Vec<Pattern>, SaveReadError>(SaveReadError::BadPattern) <==> (ron_string_list(text@) is Some
            && exists|i: int|
            0 <= i < ron_string_list(text@)->0.len() && !rle_ok(#[trigger] ron_string_list(text@)->0[i])),
        r matches Ok(ps) ==> ps@.len() == ron_string_list(text@)->0.len() && forall|i: int|
            0 <= i < ps@.len() ==> rle_pattern(ron_string_list(text@)->0[i], #[trigger] ps@[i]),
{
    let parsed = parse_ron_strings(text);
    if parsed.is_none() {
        return Err(SaveReadError::NotAList);
    }
    let strings = parsed.unwrap();
    let ghost l = strings@.map_values(|s: String| s@);
    let mut ps: Vec<Pattern> = Vec::new();
    let mut k: usize = 0;
    while k < strings.len()
        invariant
            k <= strings.len(),
            l == strings@.map_values(|s: String| s@),
            ron_string_list(text@) == Some(l),
            ps@.len() == k,
            forall|i: int| 0 <= i < k ==> rle_ok(#[trigger] l[i]) && rle_pattern(l[i], ps@[i]),
        decreases strings.len() - k,
    {
        let s = strings[k].as_str();
        proof {
            assert(l[k as int] == s@);
        }
        if !rle_readable(s) {
            proof {
                assert(!rle_ok(l[k as int]));
                assert(!rle_ok(ron_string_list(text@)->0[k as int]));
            }
            return Err(SaveReadError::BadPattern);
        }
        let p = Pattern::from_rle(s);
        ps.push(p);
        k = k + 1;
    }
    Ok(ps)
}

/// The save text of a library: the pretty RON list of the patterns' RLE texts (`None`
/// where RON cannot write it).
pub fn save_text(patterns: &Vec<Pattern>) -> (r: Option<String>)
    requires
        forall|i: int|
            0 <= i < patterns@.len() ==> (#[trigger] patterns@[i]).life.wf() && rows_taggable(
                patterns@[i].life.spec_rule().spec_is_generations(),
                patterns@[i].life.rows(),
            ),
    ensures
        r is None <==> ron_pretty_strings(patterns@.map_values(|p: Pattern| rle_text(p))) is None,
        r matches Some(t) ==> ron_pretty_strings(patterns@.map_values(|p: Pattern| rle_text(p))) == Some(t@),
{
    let mut texts: Vec<String> = Vec::new();
    let mut k: usize = 0;
    while k < patterns.len()
        invariant
            k <= patterns.len(),
            texts@.len() == k,
            forall|i: int|
                0 <= i < patterns@.len() ==> (#[trigger] patterns@[i]).life.wf() && rows_taggable(
                    patterns@[i].life.spec_rule().spec_is_generations(),
                    patterns@[i].life.rows(),
                ),
            forall|i: int| 0 <= i < k ==> (#[trigger] texts@[i])@ == rle_text(patterns@[i]),
        decreases patterns.len() - k,
    {
        let t = patterns[k].to_rle();
        texts.push(t);
        k = k + 1;
    }
    proof {
        assert(texts@.map_values(|s: String| s@) =~= patterns@.map_values(|p: Pattern| rle_text(p)));
    }
    ron_pretty(&texts)
}

} // verus!
