//! The grammar of `zone1970.tab`: which rows a table text holds.
use vstd::prelude::*;

use crate::text::{
    char_views, chars_of, lemma_last_line_needs_no_ending, lemma_lines_of_append,
    lemma_split_on_concat, lemma_split_on_free, lemma_split_on_nonempty, lines, lines_of,
    split_chars, split_on, string_of, strip_cr,
};

verus! {

/// The rows that one line of the table contributes: none for an empty line,
/// a comment line (starting with `'#'`) or a line with fewer than three
/// tab-separated fields; else one `(code, timezone)` row for each
/// comma-separated code of the first field, in order, all with the third
/// field as timezone.
pub open spec fn line_rows(line: Seq<char>) -> Seq<(Seq<char>, Seq<char>)> {
    if line.len() == 0 || line[0] == '#' {
        seq![]
    } else {
        let fields = split_on(line, '\t');
        if fields.len() < 3 {
            seq![]
        } else {
            split_on(fields[0], ',').map_values(|code: Seq<char>| (code, fields[2]))
        }
    }
}

/// The rows of a sequence of lines, line after line.
pub open spec fn rows_of_lines(lines: Seq<Seq<char>>) -> Seq<(Seq<char>, Seq<char>)>
    decreases lines.len(),
{
    if lines.len() == 0 {
        seq![]
    } else {
        rows_of_lines(lines.drop_last()) + line_rows(lines.last())
    }
}

/// The `(code, timezone)` rows of a table text, in the order of its lines.
pub open spec fn zone_rows(text: Seq<char>) -> Seq<(Seq<char>, Seq<char>)> {
    rows_of_lines(lines_of(text))
}

/// The character sequences held by a vector of `(code, timezone)` rows.
pub open spec fn row_views(rows: Seq<(String, String)>) -> Seq<(Seq<char>, Seq<char>)> {
    rows.map_values(|r: (String, String)| (r.0@, r.1@))
}

/// Appends to `rows` the rows that `line` contributes.
fn push_line_rows(rows: &mut Vec<(String, String)>, line: &Vec<char>)
    ensures
        row_views(final(rows)@) == row_views(old(rows)@) + line_rows(line@),
{
    if line.len() == 0 || line[0] == '#' {
        assert(row_views(rows@) =~= row_views(old(rows)@) + line_rows(line@));
        return ;
    }
    let fields = split_chars(line, '\t');
    if fields.len() < 3 {
        assert(row_views(rows@) =~= row_views(old(rows)@) + line_rows(line@));
        return ;
    }
    let ghost zone = fields@[2]@;
    let codes = split_chars(&fields[0], ',');
    let ghost wanted = char_views(codes@).map_values(|code: Seq<char>| (code, zone));
    assert(wanted == line_rows(line@));
    let mut k: usize = 0;
    while k < codes.len()
        invariant
            k <= codes.len(),
            fields.len() >= 3,
            zone == fields@[2]@,
            wanted == char_views(codes@).map_values(|code: Seq<char>| (code, zone)),
            row_views(rows@) == row_views(old(rows)@) + wanted.take(k as int),
        decreases codes.len() - k,
    {
        let ghost before = rows@;
        let code = string_of(&codes[k]);
        let tz = string_of(&fields[2]);
        rows.push((code, tz));
        assert(row_views(rows@) =~= row_views(before).push((codes@[k as int]@, zone)));
        assert(wanted.take(k + 1) =~= wanted.take(k as int).push(wanted[k as int]));
        k += 1;
    }
    assert(wanted.take(codes.len() as int) =~= wanted);
}

/// Reads the text of `zone1970.tab`: for each line, in order, and each
/// territory code of its first field, in order, one row of that code and the
/// timezone of its third field. Empty lines, comments and lines with fewer
/// than three fields give no row.
pub fn load_timezones_table(zone_tab: &str) -> (rows: Vec<(String, String)>)
    ensures
        row_views(rows@) == zone_rows(zone_tab@),
{
    let text = chars_of(zone_tab);
    let ls = lines(&text);
    let ghost lv = lines_of(zone_tab@);
    let mut rows: Vec<(String, String)> = Vec::new();
    let mut i: usize = 0;
    assert(lv.take(0) =~= Seq::<Seq<char>>::empty());
    assert(row_views(rows@) =~= rows_of_lines(lv.take(0)));
    while i < ls.len()
        invariant
            i <= ls.len(),
            char_views(ls@) == lv,
            row_views(rows@) == rows_of_lines(lv.take(i as int)),
        decreases ls.len() - i,
    {
        push_line_rows(&mut rows, &ls[i]);
        assert(lv.take(i + 1).drop_last() =~= lv.take(i as int));
        assert(lv.take(i + 1).last() == ls@[i as int]@);
        i += 1;
    }
    assert(lv.take(ls.len() as int) =~= lv);
    rows
}

/// The table is read line by line: appending a whole line to a table whose
/// last line is ended appends the rows of that line (less a final carriage
/// return) to the table's rows.
pub proof fn lemma_zone_rows_append_line(zone_tab: Seq<char>, line: Seq<char>)
    requires
        zone_tab.len() == 0 || zone_tab.last() == '\n',
        !line.contains('\n'),
    ensures
        zone_rows(zone_tab + line + seq!['\n']) == zone_rows(zone_tab) + line_rows(strip_cr(line)),
{
    lemma_lines_of_append(zone_tab, line);
    let ls = lines_of(zone_tab).push(strip_cr(line));
    assert(ls.drop_last() =~= lines_of(zone_tab));
}

/// A comment line adds no row to the table.
pub proof fn lemma_comment_line_adds_no_rows(zone_tab: Seq<char>, line: Seq<char>)
    requires
        zone_tab.len() == 0 || zone_tab.last() == '\n',
        !line.contains('\n'),
        line.len() > 0,
        line[0] == '#',
    ensures
        zone_rows(zone_tab + line + seq!['\n']) == zone_rows(zone_tab),
{
    lemma_zone_rows_append_line(zone_tab, line);
    let l = strip_cr(line);
    if l.len() > 0 {
        assert(l[0] == '#');
    }
    assert(line_rows(l) =~= Seq::<(Seq<char>, Seq<char>)>::empty());
    assert(zone_rows(zone_tab) + line_rows(l) =~= zone_rows(zone_tab));
}

/// Territory codes written as the first field of a table line: the codes
/// joined by commas.
pub open spec fn join_codes(cs: Seq<Seq<char>>) -> Seq<char>
    decreases cs.len(),
{
    if cs.len() == 0 {
        Seq::empty()
    } else if cs.len() == 1 {
        cs[0]
    } else {
        join_codes(cs.drop_last()) + seq![','] + cs.last()
    }
}

/// A code of a table line: no comma, tab or line feed in it.
pub open spec fn plain_code(c: Seq<char>) -> bool {
    !c.contains(',') && !c.contains('\t') && !c.contains('\n')
}

/// A field of a table line: no tab or line feed in it.
pub open spec fn plain_field(f: Seq<char>) -> bool {
    !f.contains('\t') && !f.contains('\n')
}

/// The data line `codes<TAB>coordinates<TAB>timezone`.
pub open spec fn data_line(cs: Seq<Seq<char>>, coord: Seq<char>, zone: Seq<char>) -> Seq<char> {
    join_codes(cs) + seq!['\t'] + coord + seq!['\t'] + zone
}

proof fn lemma_join_codes_facts(cs: Seq<Seq<char>>)
    requires
        cs.len() >= 1,
        forall|i: int| 0 <= i < cs.len() ==> plain_code(#[trigger] cs[i]),
    ensures
        split_on(join_codes(cs), ',') == cs,
        !join_codes(cs).contains('\t'),
        !join_codes(cs).contains('\n'),
        join_codes(cs).len() >= cs[0].len(),
        forall|i: int| 0 <= i < cs[0].len() ==> #[trigger] join_codes(cs)[i] == cs[0][i],
    decreases cs.len(),
{
    if cs.len() == 1 {
        assert(plain_code(cs[0]));
        lemma_split_on_free(cs[0], ',');
        assert(split_on(join_codes(cs), ',') =~= cs);
    } else {
        let init = cs.drop_last();
        assert forall|i: int| 0 <= i < init.len() implies plain_code(#[trigger] init[i]) by {
            assert(init[i] == cs[i]);
        }
        lemma_join_codes_facts(init);
        assert(plain_code(cs[cs.len() - 1]));
        lemma_split_on_concat(join_codes(init), cs.last(), ',');
        lemma_split_on_free(cs.last(), ',');
        assert(split_on(join_codes(cs), ',') =~= cs);
        let j = join_codes(cs);
        assert forall|i: int| 0 <= i < cs[0].len() implies #[trigger] j[i] == cs[0][i] by {
            assert(init[0] == cs[0]);
            assert(j[i] == join_codes(init)[i]);
        }
        assert(!j.contains('\t')) by {
            if j.contains('\t') {
                let k = choose|k: int| 0 <= k < j.len() && j[k] == '\t';
                if k < join_codes(init).len() {
                    assert(join_codes(init)[k] == '\t');
                } else if k > join_codes(init).len() {
                    assert(cs.last()[k - join_codes(init).len() - 1] == '\t');
                }
            }
        }
        assert(!j.contains('\n')) by {
            if j.contains('\n') {
                let k = choose|k: int| 0 <= k < j.len() && j[k] == '\n';
                if k < join_codes(init).len() {
                    assert(join_codes(init)[k] == '\n');
                } else if k > join_codes(init).len() {
                    assert(cs.last()[k - join_codes(init).len() - 1] == '\n');
                }
            }
        }
    }
}

/// What a data line contributes: one row for each of its codes, in order,
/// each with the line's timezone.
pub proof fn lemma_data_line_rows(cs: Seq<Seq<char>>, coord: Seq<char>, zone: Seq<char>)
    requires
        cs.len() >= 1,
        forall|i: int| 0 <= i < cs.len() ==> plain_code(#[trigger] cs[i]),
        cs[0].len() > 0,
        cs[0][0] != '#',
        plain_field(coord),
        plain_field(zone),
    ensures
        line_rows(data_line(cs, coord, zone)) == cs.map_values(|c: Seq<char>| (c, zone)),
        line_rows(data_line(cs, coord, zone)).len() == cs.len(),
        forall|i: int|
            0 <= i < cs.len() ==> #[trigger] line_rows(data_line(cs, coord, zone))[i] == (
            cs[i],
            zone,
            ),
{
    lemma_join_codes_facts(cs);
    let line = data_line(cs, coord, zone);
    let j = join_codes(cs);
    assert(line =~= j + seq!['\t'] + (coord + seq!['\t'] + zone));
    lemma_split_on_concat(j, coord + seq!['\t'] + zone, '\t');
    lemma_split_on_concat(coord, zone, '\t');
    lemma_split_on_free(j, '\t');
    lemma_split_on_free(coord, '\t');
    lemma_split_on_free(zone, '\t');
    let fields = split_on(line, '\t');
    assert(fields =~= seq![j, coord, zone]);
    assert(line[0] == j[0]);
    assert(j[0] == cs[0][0]);
    assert(line_rows(line) =~= cs.map_values(|c: Seq<char>| (c, zone)));
}

/// Further fields do not matter: appending a tab and a comment to a line
/// with at least three fields leaves its rows unchanged.
pub proof fn lemma_comment_field_keeps_rows(line: Seq<char>, comment: Seq<char>)
    requires
        split_on(line, '\t').len() >= 3,
    ensures
        line_rows(line + seq!['\t'] + comment) == line_rows(line),
{
    let l2 = line + seq!['\t'] + comment;
    lemma_split_on_concat(line, comment, '\t');
    lemma_split_on_nonempty(comment, '\t');
    let f = split_on(line, '\t');
    let f2 = split_on(l2, '\t');
    assert(f2 =~= f + split_on(comment, '\t'));
    assert(f2[0] == f[0] && f2[2] == f[2]);
    if line.len() == 0 {
        assert(line =~= Seq::<char>::empty());
        assert(f =~= seq![Seq::<char>::empty()]);
    }
    assert(l2[0] == line[0]);
}

/// A data line, with or without a comment field, at the end of a table
/// adds one row per code with its timezone, whether or not the line is ended.
pub proof fn lemma_data_line_in_table(
    t: Seq<char>,
    cs: Seq<Seq<char>>,
    coord: Seq<char>,
    zone: Seq<char>,
    comment: Seq<char>,
)
    requires
        t.len() == 0 || t.last() == '\n',
        cs.len() >= 1,
        forall|i: int| 0 <= i < cs.len() ==> plain_code(#[trigger] cs[i]),
        cs[0].len() > 0,
        cs[0][0] != '#',
        plain_field(coord),
        plain_field(zone),
        zone.len() == 0 || zone.last() != '\r',
        !comment.contains('\n'),
        comment.len() == 0 || comment.last() != '\r',
    ensures
        zone_rows(t + data_line(cs, coord, zone)) == zone_rows(t) + cs.map_values(
            |c: Seq<char>| (c, zone),
        ),
        zone_rows(t + data_line(cs, coord, zone) + seq!['\n']) == zone_rows(t) + cs.map_values(
            |c: Seq<char>| (c, zone),
        ),
        zone_rows(t + data_line(cs, coord, zone) + seq!['\t'] + comment) == zone_rows(t)
            + cs.map_values(|c: Seq<char>| (c, zone)),
        zone_rows(t + data_line(cs, coord, zone) + seq!['\t'] + comment + seq!['\n']) == zone_rows(
            t,
        ) + cs.map_values(|c: Seq<char>| (c, zone)),
{
    let d = data_line(cs, coord, zone);
    let rows = cs.map_values(|c: Seq<char>| (c, zone));
    lemma_data_line_rows(cs, coord, zone);
    lemma_join_codes_facts(cs);
    let j = join_codes(cs);
    assert(!d.contains('\n')) by {
        if d.contains('\n') {
            let k = choose|k: int| 0 <= k < d.len() && d[k] == '\n';
            if k < j.len() {
                assert(j[k] == '\n');
            } else if j.len() < k < j.len() + 1 + coord.len() {
                assert(coord[k - j.len() - 1] == '\n');
            } else if k > j.len() + 1 + coord.len() {
                assert(zone[k - j.len() - 2 - coord.len()] == '\n');
            }
        }
    }
    assert(d.len() > 0);
    assert(d[d.len() - 1] == d.last());
    // the line, unended and ended
    lemma_zone_rows_last_line_unended(t, d);
    lemma_zone_rows_append_line(t, d);
    if zone.len() > 0 {
        assert(d.last() == zone.last());
    } else {
        assert(d.last() == '\t');
    }
    assert(d.last() != '\r');
    assert(strip_cr(d) == d);
    // the line with a comment field, unended and ended
    let dc = d + seq!['\t'] + comment;
    lemma_split_on_concat(j, coord + seq!['\t'] + zone, '\t');
    lemma_split_on_concat(coord, zone, '\t');
    assert(d =~= j + seq!['\t'] + (coord + seq!['\t'] + zone));
    lemma_split_on_nonempty(j, '\t');
    lemma_split_on_nonempty(coord, '\t');
    lemma_split_on_nonempty(zone, '\t');
    assert(split_on(d, '\t').len() >= 3);
    lemma_comment_field_keeps_rows(d, comment);
    assert(!dc.contains('\n')) by {
        if dc.contains('\n') {
            let k = choose|k: int| 0 <= k < dc.len() && dc[k] == '\n';
            if k < d.len() {
                assert(d[k] == '\n');
            } else if k > d.len() {
                assert(comment[k - d.len() - 1] == '\n');
            }
        }
    }
    lemma_zone_rows_last_line_unended(t, dc);
    lemma_zone_rows_append_line(t, dc);
    if comment.len() > 0 {
        assert(dc.last() == comment.last());
    }
    assert(strip_cr(dc) == dc);
    assert(t + dc =~= t + d + seq!['\t'] + comment);
    assert(t + dc + seq!['\n'] =~= t + d + seq!['\t'] + comment + seq!['\n']);
}

/// A last line needs no line ending: the rows of a table whose last line is
/// unended are those of the table before it, then that line's.
pub proof fn lemma_zone_rows_last_line_unended(zone_tab: Seq<char>, line: Seq<char>)
    requires
        zone_tab.len() == 0 || zone_tab.last() == '\n',
        line.len() > 0,
        !line.contains('\n'),
    ensures
        zone_rows(zone_tab + line) == zone_rows(zone_tab) + line_rows(line),
{
    lemma_last_line_needs_no_ending(zone_tab, line);
    let ls = lines_of(zone_tab).push(line);
    assert(ls.drop_last() =~= lines_of(zone_tab));
}

} // verus!
