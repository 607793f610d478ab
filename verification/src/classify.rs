//! Entry classification: one raw input line becomes a prefix-stripped entry
//! tagged as Latin or Han script, or is dropped when nothing alphabetic is
//! left.

use vstd::prelude::*;
use vstd::string::StrSliceExecFns;
use crate::chars;
use crate::text;
use crate::text::str_views;

verus! {

/// One classified reference entry: its prefix-stripped content, tagged by
/// script.
pub enum Entry {
    Latin(String),
    Han(String),
}

impl Entry {
    /// The stripped line this entry carries.
    pub open spec fn content(self) -> Seq<char> {
        match self {
            Entry::Latin(s) => s@,
            Entry::Han(s) => s@,
        }
    }
}

/// Classifies one raw line: strips everything before the first alphabetic
/// character, drops the line if nothing is left, and otherwise tags the rest
/// as Latin exactly when the first remaining code point lies in the Latin
/// range.
pub fn classify_line(line: &str) -> (r: Option<Entry>)
    ensures
        (r is None) <==> text::strip_spec(line@).len() == 0,
        r matches Some(e) ==> e.content() == text::strip_spec(line@),
        r matches Some(e) ==> ((e is Latin) <==> chars::latin_range(text::strip_spec(line@)[0])),
{
    let t = text::strip_line(line);
    if t.as_str().unicode_len() == 0 {
        None
    } else {
        let c = t.as_str().get_char(0);
        if chars::char_in_latin_range(c) {
            Some(Entry::Latin(t))
        } else {
            Some(Entry::Han(t))
        }
    }
}

/// The stripped contents of the lines classified as Latin, in input order.
pub open spec fn latin_of(ls: Seq<Seq<char>>) -> Seq<Seq<char>>
    decreases ls.len(),
{
    if ls.len() == 0 {
        Seq::empty()
    } else {
        let t = text::strip_spec(ls.first());
        let rest = latin_of(ls.drop_first());
        if t.len() > 0 && chars::latin_range(t[0]) {
            seq![t] + rest
        } else {
            rest
        }
    }
}

/// The stripped contents of the lines classified as Han, in input order.
pub open spec fn han_of(ls: Seq<Seq<char>>) -> Seq<Seq<char>>
    decreases ls.len(),
{
    if ls.len() == 0 {
        Seq::empty()
    } else {
        let t = text::strip_spec(ls.first());
        let rest = han_of(ls.drop_first());
        if t.len() > 0 && !chars::latin_range(t[0]) {
            seq![t] + rest
        } else {
            rest
        }
    }
}

/// How many lines are dropped because nothing alphabetic is left in them.
pub open spec fn dropped_of(ls: Seq<Seq<char>>) -> nat
    decreases ls.len(),
{
    if ls.len() == 0 {
        0
    } else {
        let t = text::strip_spec(ls.first());
        let rest = dropped_of(ls.drop_first());
        if t.len() == 0 {
            1 + rest
        } else {
            rest
        }
    }
}

/// Every line lands in exactly one bucket: the classified entries, split by
/// script, together with the dropped lines account for the whole input.
pub proof fn lemma_classification_partition(ls: Seq<Seq<char>>)
    ensures
        latin_of(ls).len() + han_of(ls).len() + dropped_of(ls) == ls.len(),
    decreases ls.len(),
{
    if ls.len() > 0 {
        lemma_classification_partition(ls.drop_first());
    }
}

/// Classified entries are nonempty, and their leading character matches
/// their script bucket.
pub proof fn lemma_bucket_entries(ls: Seq<Seq<char>>)
    ensures
        forall|k: int| 0 <= k < latin_of(ls).len() ==> (#[trigger] latin_of(ls)[k]).len() > 0
            && chars::latin_range(latin_of(ls)[k][0]),
        forall|k: int| 0 <= k < han_of(ls).len() ==> (#[trigger] han_of(ls)[k]).len() > 0
            && !chars::latin_range(han_of(ls)[k][0]),
    decreases ls.len(),
{
    if ls.len() > 0 {
        lemma_bucket_entries(ls.drop_first());
        let t = text::strip_spec(ls.first());
        assert forall|k: int| 0 <= k < latin_of(ls).len() implies (#[trigger] latin_of(ls)[k]).len()
            > 0 && chars::latin_range(latin_of(ls)[k][0]) by {
            if t.len() > 0 && chars::latin_range(t[0]) {
                if k == 0 {
                    assert(latin_of(ls)[0] == t);
                } else {
                    assert(latin_of(ls)[k] == latin_of(ls.drop_first())[k - 1]);
                }
            } else {
                assert(latin_of(ls)[k] == latin_of(ls.drop_first())[k]);
            }
        }
        assert forall|k: int| 0 <= k < han_of(ls).len() implies (#[trigger] han_of(ls)[k]).len()
            > 0 && !chars::latin_range(han_of(ls)[k][0]) by {
            if t.len() > 0 && !chars::latin_range(t[0]) {
                if k == 0 {
                    assert(han_of(ls)[0] == t);
                } else {
                    assert(han_of(ls)[k] == han_of(ls.drop_first())[k - 1]);
                }
            } else {
                assert(han_of(ls)[k] == han_of(ls.drop_first())[k]);
            }
        }
    }
}

/// Classifies every line: returns the Latin bucket and the Han bucket, in
/// input order, and the count of dropped lines.
pub fn classify_lines(lines: &Vec<String>) -> (r: (Vec<String>, Vec<String>, usize))
    ensures
        str_views(r.0@) == latin_of(str_views(lines@)),
        str_views(r.1@) == han_of(str_views(lines@)),
        r.2 == dropped_of(str_views(lines@)),
{
    let ghost all = str_views(lines@);
    let mut latin: Vec<String> = Vec::new();
    let mut han: Vec<String> = Vec::new();
    let mut dropped: usize = 0;
    let n = lines.len();
    let mut i: usize = 0;
    proof {
        assert(all.skip(0) =~= all);
        assert(str_views(latin@) + latin_of(all) =~= latin_of(all));
        assert(str_views(han@) + han_of(all) =~= han_of(all));
    }
    while i < n
        invariant
            0 <= i <= n,
            n == lines@.len(),
            all == str_views(lines@),
            dropped <= i,
            latin_of(all) == str_views(latin@) + latin_of(all.skip(i as int)),
            han_of(all) == str_views(han@) + han_of(all.skip(i as int)),
            dropped_of(all) == dropped + dropped_of(all.skip(i as int)),
        decreases n - i,
    {
        let ghost suffix = all.skip(i as int);
        proof {
            assert(suffix.first() == lines@[i as int]@);
            assert(suffix.drop_first() =~= all.skip(i as int + 1));
        }
        match classify_line(lines[i].as_str()) {
            None => {
                dropped += 1;
            },
            Some(Entry::Latin(s)) => {
                let ghost pre = latin@;
                latin.push(s);
                proof {
                    text::lemma_str_views_push(pre, latin@[latin@.len() - 1]);
                    assert(str_views(latin@) + latin_of(all.skip(i as int + 1)) =~= str_views(pre)
                        + latin_of(suffix));
                }
            },
            Some(Entry::Han(s)) => {
                let ghost pre = han@;
                han.push(s);
                proof {
                    text::lemma_str_views_push(pre, han@[han@.len() - 1]);
                    assert(str_views(han@) + han_of(all.skip(i as int + 1)) =~= str_views(pre)
                        + han_of(suffix));
                }
            },
        }
        i += 1;
    }
    proof {
        assert(all.skip(n as int) =~= Seq::empty());
        assert(str_views(latin@) =~= str_views(latin@) + latin_of(all.skip(n as int)));
        assert(str_views(han@) =~= str_views(han@) + han_of(all.skip(n as int)));
    }
    (latin, han, dropped)
}

} // verus!
