//! The stroke-count table: an immutable character-to-stroke-count lookup
//! built from a tabular reference dataset.
//!
//! Dataset layout: six header lines, then one data row per character. A data
//! row has whitespace-separated fields; field 0 starts with the character,
//! field 6 is its stroke count. The first row for a character wins; a row
//! with fewer than seven fields is skipped; a stroke-count field that does
//! not parse counts as zero.

use vstd::prelude::*;
use vstd::string::StrSliceExecFns;
use crate::numbers;
use crate::text;
use crate::text::str_views;

verus! {

/// A character-to-stroke-count lookup built once from a reference dataset.
pub struct StrokeTable {
    pairs: Vec<(char, i32)>,
}

/// The mapping a pair sequence denotes, earlier pairs winning over later
/// ones.
pub open spec fn pairs_map(ps: Seq<(char, i32)>) -> Map<char, int>
    decreases ps.len(),
{
    if ps.len() == 0 {
        Map::empty()
    } else {
        pairs_map(ps.drop_first()).insert(ps.first().0, ps.first().1 as int)
    }
}

impl View for StrokeTable {
    type V = Map<char, int>;

    closed spec fn view(&self) -> Map<char, int> {
        pairs_map(self.pairs@)
    }
}

proof fn lemma_pairs_map_hit(ps: Seq<(char, i32)>, k: int)
    requires
        0 <= k < ps.len(),
        forall|j: int| 0 <= j < k ==> (#[trigger] ps[j]).0 != ps[k].0,
    ensures
        pairs_map(ps).contains_key(ps[k].0),
        pairs_map(ps)[ps[k].0] == ps[k].1 as int,
    decreases k,
{
    if k > 0 {
        let tail = ps.drop_first();
        assert forall|j: int| 0 <= j < k - 1 implies (#[trigger] tail[j]).0 != tail[k - 1].0 by {
            assert(tail[j] == ps[j + 1]);
        }
        assert(tail[k - 1] == ps[k]);
        lemma_pairs_map_hit(tail, k - 1);
        assert(ps[0].0 != ps[k].0);
    }
}

proof fn lemma_pairs_map_miss(ps: Seq<(char, i32)>, c: char)
    requires
        forall|j: int| 0 <= j < ps.len() ==> (#[trigger] ps[j]).0 != c,
    ensures
        !pairs_map(ps).contains_key(c),
    decreases ps.len(),
{
    if ps.len() > 0 {
        let tail = ps.drop_first();
        assert forall|j: int| 0 <= j < tail.len() implies (#[trigger] tail[j]).0 != c by {
            assert(tail[j] == ps[j + 1]);
        }
        lemma_pairs_map_miss(tail, c);
    }
}

proof fn lemma_pairs_map_push_absent(ps: Seq<(char, i32)>, c: char, v: i32)
    requires
        forall|j: int| 0 <= j < ps.len() ==> (#[trigger] ps[j]).0 != c,
    ensures
        pairs_map(ps.push((c, v))) == pairs_map(ps).insert(c, v as int),
    decreases ps.len(),
{
    if ps.len() == 0 {
        assert(ps.push((c, v)).drop_first() =~= ps);
        assert(ps.push((c, v)).first() == (c, v));
        assert(pairs_map(ps.push((c, v))) =~= pairs_map(ps).insert(c, v as int));
    } else {
        let tail = ps.drop_first();
        assert forall|j: int| 0 <= j < tail.len() implies (#[trigger] tail[j]).0 != c by {
            assert(tail[j] == ps[j + 1]);
        }
        lemma_pairs_map_push_absent(tail, c, v);
        assert(ps.push((c, v)).drop_first() =~= tail.push((c, v)));
        assert(ps.push((c, v)).first() == ps.first());
        assert(ps[0].0 != c);
        assert(pairs_map(ps.push((c, v))) =~= pairs_map(ps).insert(c, v as int));
    }
}

impl StrokeTable {
    /// Keys are unique: a character occurs in at most one pair.
    pub closed spec fn wf(self) -> bool {
        forall|i: int, j: int|
            0 <= i < j < self.pairs@.len() ==> (#[trigger] self.pairs@[i]).0
                != (#[trigger] self.pairs@[j]).0
    }

    /// An empty table.
    pub fn new() -> (t: StrokeTable)
        ensures
            t@ == Map::<char, int>::empty(),
            t.wf(),
    {
        let t = StrokeTable { pairs: Vec::new() };
        proof {
            assert(t@ =~= Map::<char, int>::empty());
        }
        t
    }

    /// Whether `c` has a stroke count in the table.
    pub fn contains_char(&self, c: char) -> (r: bool)
        ensures
            r == self@.contains_key(c),
    {
        let n = self.pairs.len();
        let mut i: usize = 0;
        while i < n
            invariant
                0 <= i <= n,
                n == self.pairs@.len(),
                forall|j: int| 0 <= j < i ==> (#[trigger] self.pairs@[j]).0 != c,
            decreases n - i,
        {
            if self.pairs[i].0 == c {
                proof {
                    lemma_pairs_map_hit(self.pairs@, i as int);
                }
                return true;
            }
            i += 1;
        }
        proof {
            lemma_pairs_map_miss(self.pairs@, c);
        }
        false
    }

    /// The stroke count of `c`. A character without an entry is a contract
    /// violation for the caller, so the table must contain `c`.
    pub fn get_stroke(&self, c: char) -> (r: i32)
        requires
            self@.contains_key(c),
        ensures
            r as int == self@[c],
    {
        let n = self.pairs.len();
        let mut i: usize = 0;
        while i < n
            invariant
                0 <= i <= n,
                n == self.pairs@.len(),
                forall|j: int| 0 <= j < i ==> (#[trigger] self.pairs@[j]).0 != c,
            decreases n - i,
        {
            if self.pairs[i].0 == c {
                proof {
                    lemma_pairs_map_hit(self.pairs@, i as int);
                }
                return self.pairs[i].1;
            }
            i += 1;
        }
        proof {
            lemma_pairs_map_miss(self.pairs@, c);
            assert(false);
        }
        0
    }

    /// Records a stroke count for `c` unless one is already present: the
    /// first occurrence wins.
    pub fn insert_if_absent(&mut self, c: char, strokes: i32)
        requires
            old(self).wf(),
        ensures
            final(self).wf(),
            final(self)@ == (if old(self)@.contains_key(c) {
                old(self)@
            } else {
                old(self)@.insert(c, strokes as int)
            }),
    {
        let n = self.pairs.len();
        let mut i: usize = 0;
        while i < n
            invariant
                0 <= i <= n,
                n == self.pairs@.len(),
                *self == *old(self),
                old(self).wf(),
                forall|j: int| 0 <= j < i ==> (#[trigger] self.pairs@[j]).0 != c,
            decreases n - i,
        {
            if self.pairs[i].0 == c {
                proof {
                    lemma_pairs_map_hit(self.pairs@, i as int);
                }
                return ;
            }
            i += 1;
        }
        proof {
            lemma_pairs_map_miss(self.pairs@, c);
            lemma_pairs_map_push_absent(self.pairs@, c, strokes);
        }
        let ghost pre = self.pairs@;
        self.pairs.push((c, strokes));
        proof {
            assert forall|a: int, b: int| 0 <= a < b < self.pairs@.len() implies (
            #[trigger] self.pairs@[a]).0 != (#[trigger] self.pairs@[b]).0 by {
                if b < pre.len() {
                    assert(self.pairs@[a] == pre[a]);
                    assert(self.pairs@[b] == pre[b]);
                } else {
                    assert(self.pairs@[a] == pre[a]);
                    assert(self.pairs@[b] == (c, strokes));
                }
            }
        }
    }
}

/// What one data row contributes: the first character of field 0 and the
/// parsed stroke count of field 6; nothing if the row has fewer than seven
/// fields.
pub open spec fn dataset_row(l: Seq<char>) -> Option<(char, int)> {
    let fs = text::fields_spec(l);
    if fs.len() >= 7 {
        Some((fs[0][0], numbers::parse_i32_or_zero(fs[6])))
    } else {
        None
    }
}

/// The table built from the rows of `ls` starting at row `i`, first
/// occurrence of a character winning.
pub open spec fn table_from(ls: Seq<Seq<char>>, i: int, acc: Map<char, int>) -> Map<char, int>
    decreases ls.len() - i,
{
    if i < 0 || i >= ls.len() {
        acc
    } else {
        let step = match dataset_row(ls[i]) {
            Some(p) => if acc.contains_key(p.0) {
                acc
            } else {
                acc.insert(p.0, p.1)
            },
            None => acc,
        };
        table_from(ls, i + 1, step)
    }
}

/// The mapping that a whole dataset text denotes: its lines after the
/// six-line header, read as data rows.
pub open spec fn table_spec(raw: Seq<char>) -> Map<char, int> {
    table_from(text::lines_spec(raw), 6, Map::empty())
}

/// Builds the stroke table from the dataset text: skips the six header
/// lines, reads each remaining row, skips malformed rows, and keeps the
/// first stroke count seen for each character.
pub fn load_stroke_table(raw: &str) -> (t: StrokeTable)
    ensures
        t@ == table_spec(raw@),
        t.wf(),
{
    let ghost ls = text::lines_spec(raw@);
    let lines = text::split_lines(raw);
    let mut t = StrokeTable::new();
    let n = lines.len();
    let mut i: usize = 6;
    proof {
        assert(table_spec(raw@) == table_from(ls, 6, t@));
    }
    while i < n
        invariant
            i >= 6,
            n == lines@.len(),
            ls == str_views(lines@),
            table_spec(raw@) == table_from(ls, i as int, t@),
            t.wf(),
        decreases n - i,
    {
        let ghost before = t@;
        let line = &lines[i];
        let fields = text::split_fields(line.as_str());
        proof {
            text::lemma_fields_nonempty(lines@[i as int]@, 0);
        }
        if fields.len() >= 7 {
            proof {
                assert(str_views(fields@)[0] == fields@[0]@);
                assert(str_views(fields@)[6] == fields@[6]@);
                assert(fields@[0]@.len() > 0);
            }
            let c = fields[0].as_str().get_char(0);
            let v = numbers::parse_stroke_field(fields[6].as_str());
            t.insert_if_absent(c, v);
            proof {
                assert(dataset_row(ls[i as int]) == Some((c, v as int)));
            }
        } else {
            proof {
                assert(str_views(fields@).len() < 7);
                assert(dataset_row(ls[i as int]) is None);
            }
        }
        proof {
            assert(table_from(ls, i as int, before) == table_from(ls, i + 1 as int, t@));
        }
        i += 1;
    }
    proof {
        assert(table_from(ls, i as int, t@) == t@);
    }
    t
}

} // verus!
