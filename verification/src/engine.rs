//! The sorting engine: one call classifies the raw text, orders both
//! buckets, and assembles the final sequence.

use vstd::prelude::*;
use vstd::relations::sorted_by;
use vstd::string::StrSliceExecFns;
use crate::classify;
use crate::classify::{latin_of, han_of};
use crate::order::lex_leq;
use crate::sorting;
use crate::sorting::{entry_ok, stroke_leq, assembled};
use crate::stroke_table::StrokeTable;
use crate::text;
use crate::text::str_views;

verus! {

/// Why a sort request fails.
#[derive(Debug)]
pub enum SortError {
    /// A Han entry's leading character has no stroke count in the table.
    StrokeLookupMiss,
}

/// Every Han entry is sortable under `t`: nonempty, with a stroke count
/// recorded for its leading character.
pub open spec fn keys_known(t: Map<char, int>, hs: Seq<Seq<char>>) -> bool {
    forall|k: int| 0 <= k < hs.len() ==> entry_ok(t, #[trigger] hs[k])
}

/// What a successful sort returns: a code-point-sorted rearrangement of the
/// Latin bucket followed by a stroke-sorted rearrangement of the Han bucket,
/// numbered when asked. The order among entries with equal stroke counts is
/// left open.
pub open spec fn acceptable_output(
    raw: Seq<char>,
    numbering: bool,
    t: Map<char, int>,
    out: Seq<Seq<char>>,
) -> bool {
    let ls = text::lines_spec(raw);
    exists|sl: Seq<Seq<char>>, sh: Seq<Seq<char>>|
        sorted_by(sl, lex_leq()) && sl.to_multiset() == latin_of(ls).to_multiset() && sorted_by(
            sh,
            stroke_leq(t),
        ) && sh.to_multiset() == han_of(ls).to_multiset() && out == assembled(sl, sh, numbering)
}

/// Sorts raw reference text: splits it into lines, strips and classifies
/// each line, orders the Latin bucket by code points and the Han bucket by
/// stroke counts, concatenates Latin before Han, and numbers the result when
/// `numbering` is set. Fails exactly when some Han entry's leading character
/// has no stroke count in the table.
pub fn sort_references(raw: &str, numbering: bool, table: &StrokeTable) -> (r: Result<
    Vec<String>,
    SortError,
>)
    ensures
        (r is Ok) <==> keys_known(table@, han_of(text::lines_spec(raw@))),
        (r is Err) ==> r == Err::<Vec<String>, SortError>(SortError::StrokeLookupMiss),
        r matches Ok(out) ==> acceptable_output(raw@, numbering, table@, str_views(out@)),
        r matches Ok(out) ==> out@.len() == latin_of(text::lines_spec(raw@)).len() + han_of(
            text::lines_spec(raw@),
        ).len(),
        r matches Ok(out) ==> out@.len() + classify::dropped_of(text::lines_spec(raw@))
            == text::lines_spec(raw@).len(),
{
    let ghost ls = text::lines_spec(raw@);
    let lines = text::split_lines(raw);
    let (latin, han, _dropped) = classify::classify_lines(&lines);
    proof {
        classify::lemma_bucket_entries(ls);
    }
    let hn = han.len();
    let mut k: usize = 0;
    while k < hn
        invariant
            0 <= k <= hn,
            hn == han@.len(),
            ls == text::lines_spec(raw@),
            str_views(han@) == han_of(ls),
            forall|m: int| 0 <= m < hn ==> (#[trigger] str_views(han@)[m]).len() > 0,
            forall|m: int| 0 <= m < k ==> entry_ok(table@, #[trigger] str_views(han@)[m]),
        decreases hn - k,
    {
        proof {
            assert(str_views(han@)[k as int] == han@[k as int]@);
        }
        let c = han[k].as_str().get_char(0);
        if !table.contains_char(c) {
            proof {
                assert(!entry_ok(table@, str_views(han@)[k as int]));
                assert(!keys_known(table@, han_of(ls)));
            }
            return Err(SortError::StrokeLookupMiss);
        }
        k += 1;
    }
    proof {
        assert(keys_known(table@, han_of(ls)));
    }
    let sorted_latin = sorting::sort_latin(latin);
    let sorted_han = sorting::sort_han(han, table);
    let ghost sl = str_views(sorted_latin@);
    let ghost sh = str_views(sorted_han@);
    let ghost la = latin_of(ls);
    let ghost ha = han_of(ls);
    let out = sorting::assemble(sorted_latin, sorted_han, numbering);
    proof {
        broadcast use vstd::seq_lib::group_to_multiset_ensures;

        assert(str_views(out@) == assembled(sl, sh, numbering));
        assert(acceptable_output(raw@, numbering, table@, str_views(out@)));
        assert(sl.to_multiset().len() == sl.len());
        assert(la.to_multiset().len() == la.len());
        assert(sh.to_multiset().len() == sh.len());
        assert(ha.to_multiset().len() == ha.len());
        assert(out@.len() == str_views(out@).len());
        assert(assembled(sl, sh, numbering).len() == sl.len() + sh.len());
        classify::lemma_classification_partition(ls);
    }
    Ok(out)
}

} // verus!
