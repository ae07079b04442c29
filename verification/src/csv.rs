//! Records of the option-chain CSV files: cutting a file into lines as
//! `str::lines` does, splitting a line into its comma-separated fields,
//! trimming fields as `str::trim` does, finding a column by its header name,
//! and checking that a record is wide enough.

use vstd::prelude::*;
use vstd::string::*;
use vstd::utf8::*;
use vstd::std_specs::iter::IteratorSpec;

verus! {

/// The character contents of a sequence of string slices.
pub open spec fn texts(v: Seq<&str>) -> Seq<Seq<char>> {
    v.map_values(|f: &str| f@)
}

/// The fields of a CSV record: the maximal comma-free runs of `s`,
/// from left to right (a record with `n` commas has `n + 1` fields).
pub open spec fn split_commas(s: Seq<char>) -> Seq<Seq<char>>
    decreases s.len(),
{
    if s.len() == 0 {
        seq![Seq::<char>::empty()]
    } else {
        let prev = split_commas(s.drop_last());
        if s.last() == ',' {
            prev.push(Seq::<char>::empty())
        } else {
            prev.update(prev.len() - 1, prev.last().push(s.last()))
        }
    }
}

/// Splits a record into its fields at every comma, as `str::split(',')`
/// does; a line with `n` commas has `n + 1` fields, possibly empty.
pub fn split_fields<'a>(line: &'a str) -> (fields: Vec<&'a str>)
    ensures
        texts(fields@) == split_commas(line@),
{
    broadcast use vstd::string::group_string_axioms;

    let n = line.unicode_len();
    let mut it = line.chars();
    let mut fields: Vec<&'a str> = Vec::new();
    let mut start: usize = 0;
    let mut i: usize = 0;
    assert(line@.subrange(0, 0) =~= Seq::<char>::empty());
    assert(texts(fields@) =~= Seq::<Seq<char>>::empty());
    assert(texts(fields@).push(line@.subrange(0, 0)) =~= split_commas(line@.subrange(0, 0)));
    assert(line@.subrange(0, n as int) =~= line@);
    loop
        invariant
            n == line@.len(),
            start <= i <= n,
            it.obeys_prophetic_iter_laws(),
            it.remaining() == line@.subrange(i as int, n as int),
            texts(fields@).push(line@.subrange(start as int, i as int)) == split_commas(
                line@.subrange(0, i as int),
            ),
        ensures
            i == n,
            texts(fields@).push(line@.subrange(start as int, i as int)) == split_commas(
                line@.subrange(0, i as int),
            ),
        decreases n - i,
    {
        match it.next() {
            None => {
                break;
            },
            Some(c) => {
                assert(c == line@[i as int]);
                proof {
                    let s = line@.subrange(0, i + 1);
                    assert(s.drop_last() == line@.subrange(0, i as int));
                    assert(line@.subrange(i + 1, n as int) =~= line@.subrange(
                        i as int,
                        n as int,
                    ).drop_first());
                }
                if c == ',' {
                    let f = line.substring_char(start, i);
                    fields.push(f);
                    start = i + 1;
                    assert(line@.subrange(start as int, (i + 1) as int) == Seq::<char>::empty());
                } else {
                    assert(line@.subrange(start as int, (i + 1) as int) == line@.subrange(
                        start as int,
                        i as int,
                    ).push(c));
                }
                i = i + 1;
            },
        }
    }
    let f = line.substring_char(start, i);
    fields.push(f);
    fields
}


/// Characters with the Unicode `White_Space` property, the set that
/// `str::trim` strips from both ends of a field.
pub open spec fn is_white_space(c: char) -> bool {
    ||| '\u{9}' <= c <= '\u{d}'
    ||| c == ' '
    ||| c == '\u{85}'
    ||| c == '\u{a0}'
    ||| c == '\u{1680}'
    ||| '\u{2000}' <= c <= '\u{200a}'
    ||| c == '\u{2028}'
    ||| c == '\u{2029}'
    ||| c == '\u{202f}'
    ||| c == '\u{205f}'
    ||| c == '\u{3000}'
}

/// `s` without its leading white space.
pub open spec fn trim_start(s: Seq<char>) -> Seq<char>
    decreases s.len(),
{
    if s.len() > 0 && is_white_space(s[0]) {
        trim_start(s.drop_first())
    } else {
        s
    }
}

/// `s` without its trailing white space.
pub open spec fn trim_end(s: Seq<char>) -> Seq<char>
    decreases s.len(),
{
    if s.len() > 0 && is_white_space(s.last()) {
        trim_end(s.drop_last())
    } else {
        s
    }
}

/// `s` without leading and trailing white space.
pub open spec fn trimmed(s: Seq<char>) -> Seq<char> {
    trim_end(trim_start(s))
}

/// No printable ASCII character other than the space is white space; in
/// particular digits, signs, dots and commas never are.
pub proof fn lemma_white_space_not_printable(c: char)
    ensures
        '!' <= c <= '~' ==> !is_white_space(c),
{
}

proof fn lemma_trim_start_cut(s: Seq<char>) -> (a: int)
    ensures
        0 <= a <= s.len(),
        trim_start(s) == s.subrange(a, s.len() as int),
        forall|k: int| 0 <= k < a ==> is_white_space(s[k]),
        a < s.len() ==> !is_white_space(s[a]),
    decreases s.len(),
{
    if s.len() > 0 && is_white_space(s[0]) {
        let t = s.drop_first();
        let a1 = lemma_trim_start_cut(t);
        assert(t.subrange(a1, t.len() as int) =~= s.subrange(a1 + 1, s.len() as int));
        assert forall|k: int| 0 <= k < a1 + 1 implies is_white_space(s[k]) by {
            if k > 0 {
                assert(s[k] == t[k - 1]);
            }
        }
        if a1 < t.len() {
            assert(s[a1 + 1] == t[a1]);
        }
        a1 + 1
    } else {
        assert(s.subrange(0, s.len() as int) =~= s);
        0
    }
}

proof fn lemma_trim_end_cut(s: Seq<char>) -> (b: int)
    ensures
        0 <= b <= s.len(),
        trim_end(s) == s.subrange(0, b),
        forall|k: int| b <= k < s.len() ==> is_white_space(s[k]),
        b > 0 ==> !is_white_space(s[b - 1]),
    decreases s.len(),
{
    if s.len() > 0 && is_white_space(s.last()) {
        let t = s.drop_last();
        let b1 = lemma_trim_end_cut(t);
        assert(t.subrange(0, b1) =~= s.subrange(0, b1));
        assert forall|k: int| b1 <= k < s.len() implies is_white_space(s[k]) by {
            if k < t.len() {
                assert(s[k] == t[k]);
            }
        }
        if b1 > 0 {
            assert(s[b1 - 1] == t[b1 - 1]);
        }
        b1
    } else {
        assert(s.subrange(0, s.len() as int) =~= s);
        s.len() as int
    }
}

/// Trimming takes white space, and nothing else, off the two ends of a
/// field: the result is a contiguous piece `s[a..b]` of the field, every
/// character cut off before `a` or from `b` on is white space, and the
/// result neither starts nor ends with white space. A field with no white
/// space at its ends is left as it is.
pub proof fn lemma_trimmed_cuts_white_space(s: Seq<char>)
    ensures
        exists|a: int, b: int|
            {
                &&& 0 <= a <= b <= s.len()
                &&& trimmed(s) == s.subrange(a, b)
                &&& forall|k: int| 0 <= k < a ==> #[trigger] is_white_space(s[k])
                &&& forall|k: int| b <= k < s.len() ==> #[trigger] is_white_space(s[k])
            },
        trimmed(s).len() > 0 ==> !is_white_space(trimmed(s)[0]) && !is_white_space(
            trimmed(s).last(),
        ),
        (s.len() == 0 || (!is_white_space(s[0]) && !is_white_space(s.last()))) ==> trimmed(s)
            == s,
{
    let a = lemma_trim_start_cut(s);
    let t = trim_start(s);
    let b1 = lemma_trim_end_cut(t);
    let b = a + b1;
    assert(t.subrange(0, b1) =~= s.subrange(a, b));
    assert forall|k: int| b <= k < s.len() implies #[trigger] is_white_space(s[k]) by {
        assert(s[k] == t[k - a]);
    }
    assert(trimmed(s) == s.subrange(a, b));
    if trimmed(s).len() > 0 {
        assert(trimmed(s)[0] == s[a]);
        assert(trimmed(s).last() == t[b1 - 1]);
    }
    if s.len() == 0 || (!is_white_space(s[0]) && !is_white_space(s.last())) {
        if s.len() > 0 {
            assert(a == 0);
            assert(t =~= s);
            assert(b == s.len());
        }
        assert(s.subrange(a, b) =~= s);
    }
}

fn is_white_space_char(c: char) -> (b: bool)
    ensures
        b == is_white_space(c),
{
    ('\u{9}' <= c && c <= '\u{d}') || c == ' ' || c == '\u{85}' || c == '\u{a0}' || c
        == '\u{1680}' || ('\u{2000}' <= c && c <= '\u{200a}') || c == '\u{2028}' || c
        == '\u{2029}' || c == '\u{202f}' || c == '\u{205f}' || c == '\u{3000}'
}

/// A field with leading and trailing white space removed.
pub fn trim_field<'a>(s: &'a str) -> (t: &'a str)
    ensures
        t@ == trimmed(s@),
{
    let n = s.unicode_len();
    let mut a: usize = 0;
    assert(s@.subrange(0, n as int) == s@);
    while a < n && is_white_space_char(s.get_char(a))
        invariant
            n == s@.len(),
            a <= n,
            trim_start(s@) == trim_start(s@.subrange(a as int, n as int)),
        decreases n - a,
    {
        assert(s@.subrange(a as int, n as int).drop_first() == s@.subrange(a + 1, n as int));
        a = a + 1;
    }
    let mut b: usize = n;
    while b > a && is_white_space_char(s.get_char(b - 1))
        invariant
            n == s@.len(),
            a <= b <= n,
            trimmed(s@) == trim_end(s@.subrange(a as int, b as int)),
        decreases b - a,
    {
        assert(s@.subrange(a as int, b as int).drop_last() == s@.subrange(a as int, b - 1));
        b = b - 1;
    }
    s.substring_char(a, b)
}

/// Whether two strings hold the same characters.
fn same_text(x: &str, y: &str) -> (b: bool)
    ensures
        b == (x@ == y@),
{
    let n = x.unicode_len();
    let m = y.unicode_len();
    if n != m {
        return false;
    }
    let mut i: usize = 0;
    while i < n
        invariant
            n == x@.len(),
            n == y@.len(),
            i <= n,
            forall|j: int| 0 <= j < i ==> x@[j] == y@[j],
        decreases n - i,
    {
        if x.get_char(i) != y.get_char(i) {
            return false;
        }
        i = i + 1;
    }
    assert(x@ =~= y@);
    true
}

/// The position of the first header field that reads `name` once trimmed.
pub open spec fn is_column(header: Seq<Seq<char>>, name: Seq<char>, i: int) -> bool {
    0 <= i < header.len() && trimmed(header[i]) == name
}

/// A header field is the column `name` exactly when its trimmed text is the
/// name: of the same length, with the same character at every position.
pub proof fn lemma_column_is_exact_name(header: Seq<Seq<char>>, name: Seq<char>, i: int)
    ensures
        is_column(header, name, i) <==> (0 <= i < header.len() && trimmed(header[i]).len()
            == name.len() && forall|k: int|
            0 <= k < name.len() ==> #[trigger] trimmed(header[i])[k] == name[k]),
{
    if 0 <= i < header.len() && trimmed(header[i]).len() == name.len() && forall|k: int|
        0 <= k < name.len() ==> #[trigger] trimmed(header[i])[k] == name[k] {
        assert(trimmed(header[i]) =~= name);
    }
}

/// Looks up a column by name in a header record: the index of the first field
/// that equals `name` after trimming, or `None` when no field does.
pub fn column_index(header: &Vec<&str>, name: &str) -> (r: Option<usize>)
    ensures
        match r {
            Some(i) => is_column(texts(header@), name@, i as int) && forall|j: int|
                0 <= j < i ==> !#[trigger] is_column(texts(header@), name@, j),
            None => forall|j: int| !#[trigger] is_column(texts(header@), name@, j),
        },
{
    let ghost h = texts(header@);
    let mut i: usize = 0;
    while i < header.len()
        invariant
            h == texts(header@),
            i <= header.len(),
            forall|j: int| 0 <= j < i ==> !#[trigger] is_column(h, name@, j),
        decreases header.len() - i,
    {
        let t = trim_field(header[i]);
        if same_text(t, name) {
            return Some(i);
        }
        i = i + 1;
    }
    None
}

/// Whether a record with `n_fields` fields holds every column in `cols`.
pub fn covers_columns(n_fields: usize, cols: &Vec<usize>) -> (b: bool)
    ensures
        b == forall|j: int| 0 <= j < cols.len() ==> cols[j] < n_fields,
{
    let mut i: usize = 0;
    while i < cols.len()
        invariant
            i <= cols.len(),
            forall|j: int| 0 <= j < i ==> cols[j] < n_fields,
        decreases cols.len() - i,
    {
        if cols[i] >= n_fields {
            return false;
        }
        i = i + 1;
    }
    true
}


/// The record obtained by writing `fields` separated by commas.
pub open spec fn join_commas(fields: Seq<Seq<char>>) -> Seq<char>
    decreases fields.len(),
{
    if fields.len() == 0 {
        Seq::<char>::empty()
    } else if fields.len() == 1 {
        fields[0]
    } else {
        join_commas(fields.drop_last()) + seq![','] + fields.last()
    }
}

/// The number of commas in `s`.
pub open spec fn comma_count(s: Seq<char>) -> nat
    decreases s.len(),
{
    if s.len() == 0 {
        0
    } else if s.last() == ',' {
        comma_count(s.drop_last()) + 1
    } else {
        comma_count(s.drop_last())
    }
}

proof fn lemma_join_extend_last(fs: Seq<Seq<char>>, c: char)
    requires
        fs.len() >= 1,
    ensures
        join_commas(fs.update(fs.len() - 1, fs.last().push(c))) == join_commas(fs).push(c),
{
    let g = fs.update(fs.len() - 1, fs.last().push(c));
    if fs.len() == 1 {
    } else {
        assert(g.drop_last() =~= fs.drop_last());
        assert(join_commas(g) == join_commas(fs.drop_last()) + seq![','] + fs.last().push(c));
        assert(join_commas(fs.drop_last()) + seq![','] + fs.last().push(c)
            =~= (join_commas(fs.drop_last()) + seq![','] + fs.last()).push(c));
    }
}

/// Splitting a record yields at least one field, one more than it has commas,
/// and none of them holds a comma.
pub proof fn lemma_split_shape(s: Seq<char>)
    ensures
        split_commas(s).len() == comma_count(s) + 1,
        forall|i: int, j: int|
            0 <= i < split_commas(s).len() && 0 <= j < split_commas(s)[i].len()
                ==> split_commas(s)[i][j] != ',',
    decreases s.len(),
{
    if s.len() > 0 {
        lemma_split_shape(s.drop_last());
        let prev = split_commas(s.drop_last());
        if s.last() != ',' {
            let l = prev.last().push(s.last());
            assert forall|i: int, j: int|
                0 <= i < split_commas(s).len() && 0 <= j < split_commas(s)[i].len()
                implies split_commas(s)[i][j] != ',' by {
                if i == prev.len() - 1 {
                    if j < prev.last().len() {
                        assert(l[j] == prev[i][j]);
                    }
                }
            }
        }
    }
}

/// Writing the fields of a split record back with commas between them
/// restores the record.
pub proof fn lemma_split_join(s: Seq<char>)
    ensures
        join_commas(split_commas(s)) == s,
    decreases s.len(),
{
    if s.len() == 0 {
        assert(join_commas(seq![Seq::<char>::empty()]) == Seq::<char>::empty());
    } else {
        lemma_split_join(s.drop_last());
        lemma_split_shape(s.drop_last());
        let prev = split_commas(s.drop_last());
        if s.last() == ',' {
            let next = prev.push(Seq::<char>::empty());
            assert(next.drop_last() =~= prev);
            assert(join_commas(next) == join_commas(prev) + seq![','] + Seq::<char>::empty());
            assert(s =~= s.drop_last() + seq![','] + Seq::<char>::empty());
        } else {
            lemma_join_extend_last(prev, s.last());
            assert(s =~= s.drop_last().push(s.last()));
        }
    }
}


/// `s` holds no comma.
pub open spec fn comma_free(s: Seq<char>) -> bool {
    forall|j: int| 0 <= j < s.len() ==> s[j] != ','
}

proof fn lemma_split_append_comma_free(p: Seq<char>, t: Seq<char>)
    requires
        comma_free(t),
    ensures
        split_commas(p).len() >= 1,
        split_commas(p + t) == split_commas(p).update(
            split_commas(p).len() - 1,
            split_commas(p).last() + t,
        ),
    decreases t.len(),
{
    lemma_split_shape(p);
    if t.len() == 0 {
        assert(p + t =~= p);
        assert(split_commas(p).last() + t =~= split_commas(p).last());
        assert(split_commas(p).update(split_commas(p).len() - 1, split_commas(p).last())
            =~= split_commas(p));
    } else {
        let t0 = t.drop_last();
        lemma_split_append_comma_free(p, t0);
        assert((p + t).drop_last() =~= p + t0);
        assert((p + t).last() == t.last());
        assert(t.last() != ',');
        let prev = split_commas(p + t0);
        lemma_split_shape(p + t0);
        assert(split_commas(p + t) == prev.update(prev.len() - 1, prev.last().push(t.last())));
        let sp = split_commas(p);
        assert(prev.len() == sp.len());
        assert(prev.last() == sp.last() + t0);
        assert((sp.last() + t0).push(t.last()) =~= sp.last() + t);
        assert(split_commas(p + t) =~= split_commas(p).update(
            split_commas(p).len() - 1,
            split_commas(p).last() + t,
        ));
    }
}

/// Splitting a record written from comma-free fields gives those fields back.
pub proof fn lemma_join_split(fields: Seq<Seq<char>>)
    requires
        fields.len() >= 1,
        forall|i: int| 0 <= i < fields.len() ==> comma_free(#[trigger] fields[i]),
    ensures
        split_commas(join_commas(fields)) == fields,
    decreases fields.len(),
{
    if fields.len() == 1 {
        let e = Seq::<char>::empty();
        lemma_split_append_comma_free(e, fields[0]);
        assert(e + fields[0] =~= fields[0]);
        assert(e + fields[0] =~= split_commas(e).last() + fields[0]);
        assert(split_commas(join_commas(fields)) =~= fields);
    } else {
        let init = fields.drop_last();
        assert forall|i: int| 0 <= i < init.len() implies comma_free(#[trigger] init[i]) by {
            assert(init[i] == fields[i]);
        }
        lemma_join_split(init);
        let x = join_commas(init) + seq![','];
        assert(x.drop_last() =~= join_commas(init));
        assert(split_commas(x) == split_commas(join_commas(init)).push(Seq::<char>::empty()));
        assert(comma_free(fields.last()));
        lemma_split_append_comma_free(x, fields.last());
        assert(Seq::<char>::empty() + fields.last() =~= fields.last());
        assert(split_commas(x + fields.last()) =~= fields);
    }
}

/// The position of the first line feed (byte 10) in `b`, or `b.len()`
/// when there is none.
pub open spec fn line_end(b: Seq<u8>) -> int
    decreases b.len(),
{
    if b.len() == 0 || b[0] == 10 {
        0
    } else {
        1 + line_end(b.drop_first())
    }
}

/// A line's bytes with one carriage return (byte 13) taken off its end, if
/// it ends in one.
pub open spec fn strip_cr(b: Seq<u8>) -> Seq<u8> {
    if b.len() > 0 && b.last() == 13 {
        b.drop_last()
    } else {
        b
    }
}

/// The lines of a text as `str::lines` gives them, over its UTF-8 bytes:
/// the text is cut after every line feed; a line that ended in a line feed
/// loses it and then a carriage return just before it; the last line needs
/// no line feed, and an empty rest gives no line.
pub open spec fn byte_lines(b: Seq<u8>) -> Seq<Seq<u8>>
    decreases b.len(),
{
    if b.len() == 0 {
        seq![]
    } else {
        let j = line_end(b);
        proof {
            lemma_line_end_bounds(b);
        }
        if j >= b.len() {
            seq![b]
        } else {
            seq![strip_cr(b.subrange(0, j))] + byte_lines(b.subrange(j + 1, b.len() as int))
        }
    }
}

/// The UTF-8 bytes of each of a sequence of string slices.
pub open spec fn line_bytes(v: Seq<&str>) -> Seq<Seq<u8>> {
    v.map_values(|l: &str| l.spec_bytes())
}

proof fn lemma_line_end(b: Seq<u8>, j: int)
    requires
        0 <= j <= b.len(),
        forall|k: int| 0 <= k < j ==> b[k] != 10,
        j == b.len() || b[j] == 10,
    ensures
        line_end(b) == j,
    decreases j,
{
    if j > 0 {
        lemma_line_end(b.drop_first(), j - 1);
    }
}

/// The end of the first line lies within the text.
pub proof fn lemma_line_end_bounds(b: Seq<u8>)
    ensures
        0 <= line_end(b) <= b.len(),
    decreases b.len(),
{
    if b.len() > 0 && b[0] != 10 {
        lemma_line_end_bounds(b.drop_first());
    }
}

/// No byte before the end of the first line is a line feed, and the line
/// ends at one unless it runs to the end of the text.
proof fn lemma_line_end_clear(b: Seq<u8>)
    ensures
        forall|k: int| 0 <= k < line_end(b) ==> b[k] != 10,
        line_end(b) < b.len() ==> b[line_end(b)] == 10,
    decreases b.len(),
{
    if b.len() > 0 && b[0] != 10 {
        lemma_line_end_clear(b.drop_first());
        lemma_line_end_bounds(b.drop_first());
        if line_end(b) < b.len() {
            assert(b[line_end(b)] == b.drop_first()[line_end(b) - 1]);
        }
        assert forall|k: int| 0 <= k < line_end(b) implies b[k] != 10 by {
            if k > 0 {
                assert(b[k] == b.drop_first()[k - 1]);
            }
        }
    }
}

/// No line holds a line feed.
pub proof fn lemma_lines_have_no_line_feed(b: Seq<u8>)
    ensures
        forall|i: int, k: int|
            0 <= i < byte_lines(b).len() && 0 <= k < byte_lines(b)[i].len() ==> byte_lines(
                b,
            )[i][k] != 10,
    decreases b.len(),
{
    if b.len() > 0 {
        let j = line_end(b);
        lemma_line_end_bounds(b);
        lemma_line_end_clear(b);
        if j < b.len() {
            let rest = b.subrange(j + 1, b.len() as int);
            lemma_lines_have_no_line_feed(rest);
            let line = strip_cr(b.subrange(0, j));
            assert forall|i: int, k: int|
                0 <= i < byte_lines(b).len() && 0 <= k < byte_lines(b)[i].len() implies byte_lines(
                b,
            )[i][k] != 10 by {
                if i == 0 {
                    assert(byte_lines(b)[0] == line);
                    assert(line[k] == b[k]);
                } else {
                    assert(byte_lines(b)[i] == byte_lines(rest)[i - 1]);
                }
            }
        }
    }
}

/// In UTF-8 text the byte after a single-byte character starts a character.
proof fn lemma_boundary_after_ascii(b: Seq<u8>)
    requires
        valid_utf8(b),
        b.len() > 0,
        b[0] <= 0x7f,
    ensures
        is_char_boundary(b, 1),
{
    reveal_with_fuel(is_char_boundary, 2);
    assert(length_of_first_scalar(b) == 1);
    assert(valid_utf8(pop_first_scalar(b)));
}

/// Splits a text into its lines as `str::lines` does: at each line feed,
/// dropping the line feed and a carriage return just before it; a final
/// line feed ends the last line without starting another.
pub fn split_lines<'a>(content: &'a str) -> (lines: Vec<&'a str>)
    ensures
        line_bytes(lines@) == byte_lines(content.spec_bytes()),
        forall|i: int|
            0 <= i < lines.len() ==> #[trigger] lines@[i]@ == decode_utf8(
                byte_lines(content.spec_bytes())[i],
            ),
{
    let mut lines: Vec<&'a str> = Vec::new();
    let mut rest: &'a str = content;
    loop
        invariant_except_break
            line_bytes(lines@) + byte_lines(rest.spec_bytes()) == byte_lines(content.spec_bytes()),
        ensures
            line_bytes(lines@) == byte_lines(content.spec_bytes()),
        decreases rest.spec_bytes().len(),
    {
        let b = rest.as_bytes();
        let n = b.len();
        if n == 0 {
            assert(line_bytes(lines@) + byte_lines(rest.spec_bytes()) =~= line_bytes(lines@));
            break;
        }
        let mut j: usize = 0;
        while j < n && b[j] != 10u8
            invariant
                n == b@.len(),
                j <= n,
                forall|k: int| 0 <= k < j ==> b@[k] != 10,
            decreases n - j,
        {
            j = j + 1;
        }
        proof {
            lemma_line_end(b@, j as int);
        }
        if j == n {
            lines.push(rest);
            assert(line_bytes(lines@) =~= line_bytes(lines@.drop_last()).push(rest.spec_bytes()));
            assert(byte_lines(rest.spec_bytes()) == seq![rest.spec_bytes()]);
            break;
        }
        proof {
            encode_utf8_valid_utf8(rest@);
            assert(rest.spec_bytes() == encode_utf8(rest@));
            is_char_boundary_iff_not_is_continuation_byte(rest.spec_bytes(), j as int);
        }
        let (head, tail) = rest.split_at(j);
        proof {
            encode_utf8_valid_utf8(head@);
            encode_utf8_valid_utf8(tail@);
        }
        let line = if j > 0 && b[j - 1] == 13u8 {
            proof {
                assert(head.spec_bytes() == encode_utf8(head@));
                is_char_boundary_iff_not_is_continuation_byte(head.spec_bytes(), j - 1);
            }
            head.split_at(j - 1).0
        } else {
            head
        };
        assert(line.spec_bytes() == strip_cr(b@.subrange(0, j as int)));
        proof {
            lemma_boundary_after_ascii(tail.spec_bytes());
        }
        let next = tail.split_at(1).1;
        assert(next.spec_bytes() =~= b@.subrange(j + 1, n as int));
        lines.push(line);
        proof {
            let done = line_bytes(lines@);
            assert(done =~= line_bytes(lines@.drop_last()).push(line.spec_bytes()));
            assert(byte_lines(rest.spec_bytes()) == seq![line.spec_bytes()] + byte_lines(
                next.spec_bytes(),
            ));
            assert(done + byte_lines(next.spec_bytes()) =~= line_bytes(lines@.drop_last())
                + byte_lines(rest.spec_bytes()));
        }
        rest = next;
    }
    assert forall|i: int| 0 <= i < lines.len() implies #[trigger] lines@[i]@ == decode_utf8(
        byte_lines(content.spec_bytes())[i],
    ) by {
        assert(line_bytes(lines@)[i] == lines@[i].spec_bytes());
        encode_utf8_decode_utf8(lines@[i]@);
    }
    lines
}

/// The text made of `lines`, each followed by a line feed.
pub open spec fn join_lines(lines: Seq<Seq<u8>>) -> Seq<u8>
    decreases lines.len(),
{
    if lines.len() == 0 {
        Seq::<u8>::empty()
    } else {
        lines[0] + seq![10u8] + join_lines(lines.drop_first())
    }
}

/// `b` with every carriage return that stands just before a line feed
/// taken out.
pub open spec fn drop_cr_before_lf(b: Seq<u8>) -> Seq<u8>
    decreases b.len(),
{
    if b.len() == 0 {
        b
    } else if b.len() >= 2 && b[0] == 13 && b[1] == 10 {
        drop_cr_before_lf(b.drop_first())
    } else {
        seq![b[0]] + drop_cr_before_lf(b.drop_first())
    }
}

/// `b` with a line feed added at its end unless it is empty or already
/// ends in one.
pub open spec fn terminated(b: Seq<u8>) -> Seq<u8> {
    if b.len() == 0 || b.last() == 10 {
        b
    } else {
        b.push(10)
    }
}

proof fn lemma_drop_cr_no_lf(s: Seq<u8>)
    requires
        forall|k: int| 0 <= k < s.len() ==> s[k] != 10,
    ensures
        drop_cr_before_lf(s) == s,
    decreases s.len(),
{
    if s.len() > 0 {
        lemma_drop_cr_no_lf(s.drop_first());
        assert(s =~= seq![s[0]] + s.drop_first());
    }
}

proof fn lemma_drop_cr_line(s: Seq<u8>, r: Seq<u8>)
    requires
        forall|k: int| 0 <= k < s.len() ==> s[k] != 10,
    ensures
        drop_cr_before_lf(s + seq![10u8] + r) == strip_cr(s) + seq![10u8] + drop_cr_before_lf(r),
    decreases s.len(),
{
    let b = s + seq![10u8] + r;
    if s.len() == 0 {
        assert(b.drop_first() =~= r);
        assert(strip_cr(s) + seq![10u8] + drop_cr_before_lf(r) =~= seq![b[0]] + drop_cr_before_lf(
            b.drop_first(),
        ));
    } else if s.len() == 1 {
        let e = Seq::<u8>::empty();
        lemma_drop_cr_line(e, r);
        assert(b.drop_first() =~= e + seq![10u8] + r);
        if s[0] == 13 {
            assert(strip_cr(s) =~= e);
        } else {
            assert(strip_cr(s) == s);
            assert(strip_cr(e) =~= e);
            assert(s + seq![10u8] + drop_cr_before_lf(r) =~= seq![b[0]] + (e + seq![10u8]
                + drop_cr_before_lf(r)));
        }
    } else {
        let s1 = s.drop_first();
        lemma_drop_cr_line(s1, r);
        assert(b.drop_first() =~= s1 + seq![10u8] + r);
        assert(b[1] == s[1]);
        assert(s.last() == s1.last());
        if s.last() == 13 {
            assert(strip_cr(s) =~= seq![s[0]] + strip_cr(s1));
        } else {
            assert(strip_cr(s) =~= seq![s[0]] + strip_cr(s1));
        }
        assert(strip_cr(s) + seq![10u8] + drop_cr_before_lf(r) =~= seq![s[0]] + (strip_cr(s1)
            + seq![10u8] + drop_cr_before_lf(r)));
    }
}

/// Writing the lines back, each followed by a line feed, gives the text
/// itself up to its line endings: every "\r\n" becomes "\n" and a missing
/// final line feed is supplied. Together with
/// `lemma_lines_have_no_line_feed` this fixes the lines: each is exactly the
/// bytes between two line feeds, less one carriage return at its end.
pub proof fn lemma_lines_join(b: Seq<u8>)
    ensures
        join_lines(byte_lines(b)) == terminated(drop_cr_before_lf(b)),
    decreases b.len(),
{
    if b.len() > 0 {
        let j = line_end(b);
        lemma_line_end_bounds(b);
        lemma_line_end_clear(b);
        if j >= b.len() {
            lemma_drop_cr_no_lf(b);
            assert(byte_lines(b) == seq![b]);
            let ls = byte_lines(b);
            assert(ls[0] == b);
            assert(ls.drop_first() =~= Seq::<Seq<u8>>::empty());
            assert(join_lines(ls.drop_first()) =~= Seq::<u8>::empty());
            assert(join_lines(ls) =~= b + seq![10u8]);
            assert(terminated(b) =~= b.push(10));
        } else {
            let s = b.subrange(0, j);
            let r = b.subrange(j + 1, b.len() as int);
            lemma_lines_join(r);
            assert(b =~= s + seq![10u8] + r);
            lemma_drop_cr_line(s, r);
            let ls = byte_lines(b);
            assert(ls == seq![strip_cr(s)] + byte_lines(r));
            assert(ls.drop_first() =~= byte_lines(r));
            let d = drop_cr_before_lf(r);
            if d.len() == 0 {
                assert(terminated(d) =~= d);
                assert(terminated(drop_cr_before_lf(b)) =~= strip_cr(s) + seq![10u8]
                    + terminated(d));
            } else {
                let x = strip_cr(s) + seq![10u8] + d;
                assert(x.last() == d.last());
                if d.last() == 10 {
                    assert(terminated(x) =~= strip_cr(s) + seq![10u8] + terminated(d));
                } else {
                    assert(terminated(x) =~= strip_cr(s) + seq![10u8] + terminated(d));
                }
            }
        }
    }
}

} // verus!
