//! Character-level text handling: the pieces between separators, and lines.
use vstd::prelude::*;

verus! {

/// The pieces of `s` between the occurrences of `sep`, in order, as
/// `str::split` yields them: one more piece than there are separators, so an
/// empty text has one empty piece.
pub open spec fn split_on(s: Seq<char>, sep: char) -> Seq<Seq<char>>
    decreases s.len(),
{
    if s.len() == 0 {
        seq![Seq::empty()]
    } else {
        let init = split_on(s.drop_last(), sep);
        if s.last() == sep {
            init.push(Seq::empty())
        } else {
            init.update(init.len() - 1, init.last().push(s.last()))
        }
    }
}

/// A line with one carriage return taken off its end, if it has one there.
pub open spec fn strip_cr(p: Seq<char>) -> Seq<char> {
    if p.len() > 0 && p.last() == '\r' {
        p.drop_last()
    } else {
        p
    }
}

/// The lines of `s` as `str::lines` yields them: split at `'\n'`, each line
/// that a `'\n'` ends loses one `'\r'` before it, the final line ending is
/// optional, and an empty text has no lines.
pub open spec fn lines_of(s: Seq<char>) -> Seq<Seq<char>> {
    let pieces = split_on(s, '\n');
    let body = pieces.drop_last().map_values(|p: Seq<char>| strip_cr(p));
    if pieces.last().len() == 0 {
        body
    } else {
        body.push(pieces.last())
    }
}

/// The character sequences held by a vector of character vectors.
pub open spec fn char_views(v: Seq<Vec<char>>) -> Seq<Seq<char>> {
    v.map_values(|x: Vec<char>| x@)
}

pub proof fn lemma_split_on_nonempty(s: Seq<char>, sep: char)
    ensures
        split_on(s, sep).len() >= 1,
    decreases s.len(),
{
    if s.len() > 0 {
        lemma_split_on_nonempty(s.drop_last(), sep);
    }
}

/// `String::push`: appends one character to the string.
#[verifier::external_body]
fn push_char(s: &mut String, c: char)
    ensures
        final(s)@ == old(s)@.push(c),
{
    s.push(c);
}

/// The characters of a string slice, in order.
pub fn chars_of(s: &str) -> (res: Vec<char>)
    ensures
        res@ == s@,
{
    let mut res: Vec<char> = Vec::new();
    for c in it: s.chars()
        invariant
            res@ == it.seq().take(it.index() as int),
    {
        res.push(c);
    }
    res
}

/// A string made of the given characters, in order.
pub fn string_of(v: &Vec<char>) -> (res: String)
    ensures
        res@ == v@,
{
    let mut res = String::new();
    let mut i: usize = 0;
    while i < v.len()
        invariant
            i <= v.len(),
            res@ == v@.take(i as int),
        decreases v.len() - i,
    {
        push_char(&mut res, v[i]);
        assert(v@.take(i + 1) =~= v@.take(i as int).push(v@[i as int]));
        i += 1;
    }
    assert(v@.take(v.len() as int) =~= v@);
    res
}

/// The pieces of `s` between the occurrences of `sep`.
pub fn split_chars(s: &Vec<char>, sep: char) -> (res: Vec<Vec<char>>)
    ensures
        char_views(res@) == split_on(s@, sep),
{
    let mut done: Vec<Vec<char>> = Vec::new();
    let mut cur: Vec<char> = Vec::new();
    let mut i: usize = 0;
    assert(s@.take(0) =~= Seq::<char>::empty());
    assert(char_views(done@).push(cur@) =~= split_on(s@.take(0), sep));
    while i < s.len()
        invariant
            i <= s.len(),
            char_views(done@).push(cur@) == split_on(s@.take(i as int), sep),
        decreases s.len() - i,
    {
        let c = s[i];
        let ghost before = s@.take(i as int);
        assert(s@.take(i + 1).drop_last() =~= before);
        assert(s@.take(i + 1).last() == c);
        proof {
            lemma_split_on_nonempty(before, sep);
        }
        if c == sep {
            let ghost old_done = done@;
            done.push(cur);
            cur = Vec::new();
            assert(char_views(done@) =~= char_views(old_done).push(split_on(before, sep).last()));
            assert(char_views(done@).push(cur@) =~= split_on(s@.take(i + 1), sep));
        } else {
            cur.push(c);
            assert(char_views(done@).push(cur@) =~= split_on(s@.take(i + 1), sep));
        }
        i += 1;
    }
    let ghost old_done = done@;
    done.push(cur);
    assert(s@.take(s.len() as int) =~= s@);
    assert(char_views(done@) =~= char_views(old_done).push(cur@));
    done
}

/// The first `n` characters of `p`.
fn prefix_chars(p: &Vec<char>, n: usize) -> (res: Vec<char>)
    requires
        n <= p.len(),
    ensures
        res@ == p@.take(n as int),
{
    let mut res: Vec<char> = Vec::new();
    let mut i: usize = 0;
    while i < n
        invariant
            n <= p.len(),
            i <= n,
            res@ == p@.take(i as int),
        decreases n - i,
    {
        res.push(p[i]);
        assert(p@.take(i + 1) =~= p@.take(i as int).push(p@[i as int]));
        i += 1;
    }
    res
}

/// The characters of `p`, less one carriage return at its end.
fn strip_cr_chars(p: &Vec<char>) -> (res: Vec<char>)
    ensures
        res@ == strip_cr(p@),
{
    if p.len() > 0 && p[p.len() - 1] == '\r' {
        let res = prefix_chars(p, p.len() - 1);
        assert(res@ =~= strip_cr(p@));
        res
    } else {
        let res = prefix_chars(p, p.len());
        assert(res@ =~= strip_cr(p@));
        res
    }
}

/// The lines of `s`, as `str::lines` yields them.
pub fn lines(s: &Vec<char>) -> (res: Vec<Vec<char>>)
    ensures
        char_views(res@) == lines_of(s@),
{
    let pieces = split_chars(s, '\n');
    proof {
        lemma_split_on_nonempty(s@, '\n');
    }
    let ghost pv = split_on(s@, '\n');
    let last = pieces.len() - 1;
    let mut res: Vec<Vec<char>> = Vec::new();
    let mut i: usize = 0;
    while i < last
        invariant
            last + 1 == pieces.len(),
            char_views(pieces@) == pv,
            i <= last,
            char_views(res@) == pv.drop_last().map_values(|p: Seq<char>| strip_cr(p)).take(
                i as int,
            ),
        decreases last - i,
    {
        let ghost old_res = res@;
        let line = strip_cr_chars(&pieces[i]);
        res.push(line);
        assert(pieces@[i as int]@ == pv[i as int]);
        assert(pv.drop_last()[i as int] == pv[i as int]);
        assert(char_views(res@) =~= char_views(old_res).push(strip_cr(pv[i as int])));
        assert(char_views(res@) =~= pv.drop_last().map_values(|p: Seq<char>| strip_cr(p)).take(
            i + 1,
        ));
        i += 1;
    }
    assert(pv.drop_last().map_values(|p: Seq<char>| strip_cr(p)).take(last as int)
        =~= pv.drop_last().map_values(|p: Seq<char>| strip_cr(p)));
    assert(pieces@[last as int]@ == pv.last());
    if pieces[last].len() > 0 {
        let ghost old_res = res@;
        let tail = prefix_chars(&pieces[last], pieces[last].len());
        assert(tail@ =~= pieces@[last as int]@);
        res.push(tail);
        assert(char_views(res@) =~= char_views(old_res).push(pv.last()));
    }
    res
}

/// Splitting a text joined at a separator splits its two parts.
pub proof fn lemma_split_on_concat(a: Seq<char>, b: Seq<char>, sep: char)
    ensures
        split_on(a + seq![sep] + b, sep) == split_on(a, sep) + split_on(b, sep),
    decreases b.len(),
{
    let s = a + seq![sep] + b;
    if b.len() == 0 {
        assert(s.drop_last() =~= a);
        assert(split_on(s, sep) =~= split_on(a, sep) + split_on(b, sep));
    } else {
        assert(s.drop_last() =~= a + seq![sep] + b.drop_last());
        assert(s.last() == b.last());
        lemma_split_on_concat(a, b.drop_last(), sep);
        lemma_split_on_nonempty(b.drop_last(), sep);
        assert(split_on(s, sep) =~= split_on(a, sep) + split_on(b, sep));
    }
}

/// A text without the separator is one piece.
pub proof fn lemma_split_on_free(a: Seq<char>, sep: char)
    requires
        !a.contains(sep),
    ensures
        split_on(a, sep) == seq![a],
    decreases a.len(),
{
    if a.len() > 0 {
        assert(a.drop_last().len() < a.len());
        assert forall|i: int| 0 <= i < a.drop_last().len() implies a.drop_last()[i] != sep by {
            assert(a.drop_last()[i] == a[i]);
        }
        lemma_split_on_free(a.drop_last(), sep);
        assert(a[a.len() - 1] == a.last());
        assert(a.last() != sep);
        assert(a.drop_last().push(a.last()) =~= a);
        let init = split_on(a.drop_last(), sep);
        assert(init.last() == a.drop_last());
        assert(split_on(a, sep) == init.update(0, a));
        assert(init.len() == 1);
        assert(init.update(0, a) =~= seq![a]);
    } else {
        assert(a =~= Seq::<char>::empty());
        assert(split_on(a, sep) =~= seq![a]);
    }
}

/// Appending a whole line (ended by `'\n'`) to a text whose last line is
/// ended appends that line, less a final carriage return, to its lines.
pub proof fn lemma_lines_of_append(t: Seq<char>, line: Seq<char>)
    requires
        t.len() == 0 || t.last() == '\n',
        !line.contains('\n'),
    ensures
        lines_of(t + line + seq!['\n']) == lines_of(t).push(strip_cr(line)),
{
    let e = Seq::<char>::empty();
    let s = t + line + seq!['\n'];
    lemma_split_on_free(line, '\n');
    assert(split_on(e, '\n') =~= seq![e]);
    if t.len() == 0 {
        assert(s =~= line + seq!['\n'] + e);
        lemma_split_on_concat(line, e, '\n');
        assert(split_on(s, '\n') =~= seq![line, e]);
        assert(lines_of(s) =~= lines_of(t).push(strip_cr(line)));
    } else {
        let u = t.drop_last();
        assert(t =~= u + seq!['\n'] + e);
        lemma_split_on_concat(u, e, '\n');
        assert(s =~= u + seq!['\n'] + (line + seq!['\n'] + e));
        lemma_split_on_concat(u, line + seq!['\n'] + e, '\n');
        lemma_split_on_concat(line, e, '\n');
        let pu = split_on(u, '\n');
        assert(split_on(t, '\n') =~= pu + seq![e]);
        assert(split_on(s, '\n') =~= pu + seq![line, e]);
        assert(lines_of(s) =~= lines_of(t).push(strip_cr(line)));
    }
}

/// A last line needs no line ending: appending a nonempty line with no
/// `'\n'` and no ending to a text whose last line is ended appends that line,
/// unchanged, to its lines.
pub proof fn lemma_last_line_needs_no_ending(t: Seq<char>, line: Seq<char>)
    requires
        t.len() == 0 || t.last() == '\n',
        line.len() > 0,
        !line.contains('\n'),
    ensures
        lines_of(t + line) == lines_of(t).push(line),
{
    let e = Seq::<char>::empty();
    let s = t + line;
    lemma_split_on_free(line, '\n');
    assert(split_on(e, '\n') =~= seq![e]);
    if t.len() == 0 {
        assert(s =~= line);
        assert(lines_of(t) =~= Seq::<Seq<char>>::empty());
        assert(lines_of(s) =~= lines_of(t).push(line));
    } else {
        let u = t.drop_last();
        assert(t =~= u + seq!['\n'] + e);
        lemma_split_on_concat(u, e, '\n');
        assert(s =~= u + seq!['\n'] + line);
        lemma_split_on_concat(u, line, '\n');
        let pu = split_on(u, '\n');
        assert(split_on(t, '\n') =~= pu + seq![e]);
        assert(split_on(s, '\n') =~= pu + seq![line]);
        assert(split_on(s, '\n').drop_last() =~= pu);
        assert(split_on(t, '\n').drop_last() =~= pu);
        assert(lines_of(s) =~= lines_of(t).push(line));
    }
}

/// The lines of a text are the pieces between its line feeds, each less a
/// carriage return before its line feed, and an empty last piece is no line:
/// splitting `t + '\n' + u` at its first line feeds gives the lines of `t`
/// (ended) followed by the lines of `u`, when `t` holds no line feed.
pub proof fn lemma_lines_of_first_line(t: Seq<char>, u: Seq<char>)
    requires
        !t.contains('\n'),
    ensures
        lines_of(t + seq!['\n'] + u) == seq![strip_cr(t)] + lines_of(u),
{
    let s = t + seq!['\n'] + u;
    lemma_split_on_concat(t, u, '\n');
    lemma_split_on_free(t, '\n');
    lemma_split_on_nonempty(u, '\n');
    let pu = split_on(u, '\n');
    assert(split_on(s, '\n') =~= seq![t] + pu);
    assert(split_on(s, '\n').last() == pu.last());
    assert(split_on(s, '\n').drop_last() =~= seq![t] + pu.drop_last());
    assert(lines_of(s) =~= seq![strip_cr(t)] + lines_of(u));
}

} // verus!
