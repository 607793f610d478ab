//! Text decomposition: scanning for the first character with a given
//! property, stripping the non-alphabetic prefix of a line, splitting a
//! buffer into lines, and splitting a line into whitespace-separated fields.

use vstd::prelude::*;
use vstd::string::StrSliceExecFns;
use crate::chars;

verus! {

/// The views of a sequence of strings, element for element.
pub open spec fn str_views(ss: Seq<String>) -> Seq<Seq<char>> {
    Seq::new(ss.len(), |i: int| ss[i]@)
}

pub proof fn lemma_str_views_push(ss: Seq<String>, x: String)
    ensures
        str_views(ss.push(x)) =~= str_views(ss).push(x@),
{
}

pub proof fn lemma_str_views_insert(ss: Seq<String>, i: int, x: String)
    requires
        0 <= i <= ss.len(),
    ensures
        str_views(ss.insert(i, x)) =~= str_views(ss).insert(i, x@),
{
    assert forall|k: int| 0 <= k < ss.len() + 1 implies str_views(ss.insert(i, x))[k]
        == str_views(ss).insert(i, x@)[k] by {
        if k < i {
            assert(ss.insert(i, x)[k] == ss[k]);
        } else if k == i {
            assert(ss.insert(i, x)[k] == x);
        } else {
            assert(ss.insert(i, x)[k] == ss[k - 1]);
        }
    }
}

pub proof fn lemma_str_views_remove(ss: Seq<String>, i: int)
    requires
        0 <= i < ss.len(),
    ensures
        str_views(ss.remove(i)) =~= str_views(ss).remove(i),
{
    assert forall|k: int| 0 <= k < ss.len() - 1 implies str_views(ss.remove(i))[k]
        == str_views(ss).remove(i)[k] by {
        if k < i {
            assert(ss.remove(i)[k] == ss[k]);
        } else {
            assert(ss.remove(i)[k] == ss[k + 1]);
        }
    }
}

/// The first index at or after `i` whose character satisfies `p`, or
/// `s.len()` if no such character exists.
pub open spec fn scan(s: Seq<char>, i: int, p: spec_fn(char) -> bool) -> int
    decreases s.len() - i,
{
    if i < 0 || i >= s.len() {
        s.len() as int
    } else if p(s[i]) {
        i
    } else {
        scan(s, i + 1, p)
    }
}

pub proof fn lemma_scan(s: Seq<char>, i: int, p: spec_fn(char) -> bool)
    requires
        0 <= i <= s.len(),
    ensures
        i <= scan(s, i, p) <= s.len(),
        forall|j: int| i <= j < scan(s, i, p) ==> !p(s[j]),
        scan(s, i, p) < s.len() ==> p(s[scan(s, i, p)]),
    decreases s.len() - i,
{
    if i < s.len() && !p(s[i]) {
        lemma_scan(s, i + 1, p);
    }
}

/// `scan` is pinned down by its characteristic properties.
pub proof fn lemma_scan_is(s: Seq<char>, i: int, j: int, p: spec_fn(char) -> bool)
    requires
        0 <= i <= j <= s.len(),
        forall|k: int| i <= k < j ==> !p(s[k]),
        j < s.len() ==> p(s[j]),
    ensures
        scan(s, i, p) == j,
    decreases j - i,
{
    if i < j {
        lemma_scan_is(s, i + 1, j, p);
    }
}

/// The characters that the classifier skips: everything before the first
/// alphabetic character.
pub open spec fn alpha_pred() -> spec_fn(char) -> bool {
    |c: char| chars::alphabetic(c)
}

pub open spec fn newline_pred() -> spec_fn(char) -> bool {
    |c: char| c == '\n'
}

pub open spec fn whitespace_pred() -> spec_fn(char) -> bool {
    |c: char| chars::whitespace(c)
}

/// A line with everything before its first alphabetic character removed;
/// empty if the line has no alphabetic character.
pub open spec fn strip_spec(s: Seq<char>) -> Seq<char> {
    s.subrange(scan(s, 0, alpha_pred()), s.len() as int)
}

/// The stripped content is either empty or starts with an alphabetic
/// character.
pub proof fn lemma_strip_shape(s: Seq<char>)
    ensures
        strip_spec(s).len() <= s.len(),
        strip_spec(s).len() > 0 ==> chars::alphabetic(strip_spec(s)[0]),
{
    lemma_scan(s, 0, alpha_pred());
}

/// Stripping is idempotent: stripping an already stripped line changes
/// nothing.
pub proof fn lemma_strip_idempotent(s: Seq<char>)
    ensures
        strip_spec(strip_spec(s)) == strip_spec(s),
{
    lemma_strip_shape(s);
    let t = strip_spec(s);
    lemma_scan_is(t, 0, 0, alpha_pred());
    assert(strip_spec(t) =~= t);
}

/// Removes every character before the first alphabetic character of `line`.
pub fn strip_line(line: &str) -> (r: String)
    ensures
        r@ == strip_spec(line@),
{
    let n = line.unicode_len();
    let mut i: usize = 0;
    while i < n && !chars::char_is_alphabetic(line.get_char(i))
        invariant
            0 <= i <= n,
            n == line@.len(),
            forall|k: int| 0 <= k < i ==> !chars::alphabetic(line@[k]),
        decreases n - i,
    {
        i += 1;
    }
    proof {
        lemma_scan_is(line@, 0, i as int, alpha_pred());
    }
    line.substring_char(i, n).to_owned()
}

/// Removes a final carriage return, as the line splitter does for lines
/// ended by a carriage return and line feed pair.
pub open spec fn chop_cr(l: Seq<char>) -> Seq<char> {
    if l.len() > 0 && l[l.len() - 1] == '\r' {
        l.drop_last()
    } else {
        l
    }
}

/// The lines of `s` starting at index `i`: pieces separated by line feeds,
/// where a carriage return directly before a line feed belongs to the
/// separator, and a final line ending produces no extra empty line.
pub open spec fn lines_from(s: Seq<char>, i: int) -> Seq<Seq<char>>
    decreases s.len() - i,
        when 0 <= i <= s.len()
        via lines_from_decreases
{
    if i >= s.len() {
        Seq::empty()
    } else {
        let j = scan(s, i, newline_pred());
        if j >= s.len() {
            seq![s.subrange(i, s.len() as int)]
        } else {
            seq![chop_cr(s.subrange(i, j))] + lines_from(s, j + 1)
        }
    }
}

#[via_fn]
proof fn lines_from_decreases(s: Seq<char>, i: int) {
    if 0 <= i < s.len() {
        lemma_scan(s, i, newline_pred());
    }
}

/// The lines of a whole text buffer.
pub open spec fn lines_spec(s: Seq<char>) -> Seq<Seq<char>> {
    lines_from(s, 0)
}

/// Splits a text buffer into lines, the way the engine reads its raw input.
pub fn split_lines(text: &str) -> (r: Vec<String>)
    ensures
        str_views(r@) == lines_spec(text@),
{
    let n = text.unicode_len();
    let mut out: Vec<String> = Vec::new();
    let mut i: usize = 0;
    while i < n
        invariant
            0 <= i <= n,
            n == text@.len(),
            lines_spec(text@) == str_views(out@) + lines_from(text@, i as int),
        decreases n - i,
    {
        let ghost pre = out@;
        let mut j: usize = i;
        while j < n && text.get_char(j) != '\n'
            invariant
                i <= j <= n,
                n == text@.len(),
                forall|k: int| i <= k < j ==> text@[k] != '\n',
            decreases n - j,
        {
            j += 1;
        }
        proof {
            lemma_scan_is(text@, i as int, j as int, newline_pred());
        }
        if j < n {
            let end = if j > i && text.get_char(j - 1) == '\r' {
                j - 1
            } else {
                j
            };
            let line = text.substring_char(i, end).to_owned();
            proof {
                assert(line@ =~= chop_cr(text@.subrange(i as int, j as int)));
            }
            out.push(line);
            proof {
                lemma_str_views_push(pre, out@[out@.len() - 1]);
                assert(str_views(out@) + lines_from(text@, j + 1 as int) =~= str_views(pre)
                    + lines_from(text@, i as int));
            }
            i = j + 1;
        } else {
            let line = text.substring_char(i, n).to_owned();
            out.push(line);
            proof {
                lemma_str_views_push(pre, out@[out@.len() - 1]);
                assert(str_views(out@) + lines_from(text@, n as int) =~= str_views(pre)
                    + lines_from(text@, i as int));
            }
            i = n;
        }
    }
    proof {
        assert(lines_spec(text@) =~= str_views(out@));
    }
    out
}

/// The whitespace-separated fields of `s` starting at index `i`: the maximal
/// runs of non-whitespace characters, in order.
pub open spec fn fields_from(s: Seq<char>, i: int) -> Seq<Seq<char>>
    decreases s.len() - i,
        when 0 <= i <= s.len()
        via fields_from_decreases
{
    if i >= s.len() {
        Seq::empty()
    } else if chars::whitespace(s[i]) {
        fields_from(s, i + 1)
    } else {
        let j = scan(s, i, whitespace_pred());
        seq![s.subrange(i, j)] + fields_from(s, j)
    }
}

#[via_fn]
proof fn fields_from_decreases(s: Seq<char>, i: int) {
    if 0 <= i < s.len() && !chars::whitespace(s[i]) {
        lemma_scan(s, i, whitespace_pred());
    }
}

/// The whitespace-separated fields of a whole line.
pub open spec fn fields_spec(s: Seq<char>) -> Seq<Seq<char>> {
    fields_from(s, 0)
}

/// Every field is a nonempty run of characters.
pub proof fn lemma_fields_nonempty(s: Seq<char>, i: int)
    requires
        0 <= i <= s.len(),
    ensures
        forall|k: int| 0 <= k < fields_from(s, i).len() ==> #[trigger] fields_from(s, i)[k].len()
            > 0,
    decreases s.len() - i,
{
    if i >= s.len() {
    } else if chars::whitespace(s[i]) {
        lemma_fields_nonempty(s, i + 1);
        assert(fields_from(s, i) == fields_from(s, i + 1));
        assert forall|k: int| 0 <= k < fields_from(s, i).len() implies #[trigger] fields_from(
            s,
            i,
        )[k].len() > 0 by {
            assert(fields_from(s, i)[k] == fields_from(s, i + 1)[k]);
        }
    } else {
        lemma_scan(s, i, whitespace_pred());
        let j = scan(s, i, whitespace_pred());
        lemma_fields_nonempty(s, j);
        assert(j > i);
        assert forall|k: int| 0 <= k < fields_from(s, i).len() implies #[trigger] fields_from(
            s,
            i,
        )[k].len() > 0 by {
            if k == 0 {
                assert(fields_from(s, i)[0] == s.subrange(i, j));
            } else {
                assert(fields_from(s, i)[k] == fields_from(s, j)[k - 1]);
            }
        }
    }
}

/// Splits a line into its whitespace-separated fields, the way the stroke
/// dataset rows are read.
pub fn split_fields(line: &str) -> (r: Vec<String>)
    ensures
        str_views(r@) == fields_spec(line@),
{
    let n = line.unicode_len();
    let mut out: Vec<String> = Vec::new();
    let mut i: usize = 0;
    while i < n
        invariant
            0 <= i <= n,
            n == line@.len(),
            fields_spec(line@) == str_views(out@) + fields_from(line@, i as int),
        decreases n - i,
    {
        if chars::char_is_whitespace(line.get_char(i)) {
            i += 1;
        } else {
            let ghost pre = out@;
            let mut j: usize = i + 1;
            while j < n && !chars::char_is_whitespace(line.get_char(j))
                invariant
                    i < j <= n,
                    n == line@.len(),
                    !chars::whitespace(line@[i as int]),
                    forall|k: int| i <= k < j ==> !chars::whitespace(line@[k]),
                decreases n - j,
            {
                j += 1;
            }
            proof {
                lemma_scan_is(line@, i as int, j as int, whitespace_pred());
            }
            let field = line.substring_char(i, j).to_owned();
            out.push(field);
            proof {
                lemma_str_views_push(pre, out@[out@.len() - 1]);
                assert(str_views(out@) + fields_from(line@, j as int) =~= str_views(pre)
                    + fields_from(line@, i as int));
            }
            i = j;
        }
    }
    proof {
        assert(fields_spec(line@) =~= str_views(out@));
    }
    out
}

} // verus!
