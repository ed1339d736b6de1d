//! The registry of timezones: every timezone of the table, sorted, and the
//! timezones of each territory.
use vstd::prelude::*;

use crate::order::{
    lemma_lex_irreflexive, lemma_lex_total, lemma_lex_transitive, lemma_strictly_sorted_unique,
    lex_less, lex_lt, strictly_sorted,
};
use crate::table::{load_timezones_table, row_views, zone_rows};
use crate::text::{char_views, chars_of, string_of};

verus! {

/// Adds `z` to the strictly sorted `keys`, where it belongs, unless it is
/// there already.
fn insert_sorted(keys: &mut Vec<Vec<char>>, z: Vec<char>)
    requires
        strictly_sorted(char_views(old(keys)@)),
    ensures
        strictly_sorted(char_views(final(keys)@)),
        forall|x: Seq<char>|
            char_views(final(keys)@).contains(x) <==> (char_views(old(keys)@).contains(x) || x
                == z@),
{
    let ghost o = char_views(keys@);
    let mut p: usize = 0;
    while p < keys.len() && lex_less(&keys[p], &z)
        invariant
            p <= keys.len(),
            keys@ == old(keys)@,
            o == char_views(keys@),
            forall|q: int| 0 <= q < p ==> lex_lt(#[trigger] o[q], z@),
        decreases keys.len() - p,
    {
        p += 1;
    }
    if p < keys.len() && !lex_less(&z, &keys[p]) {
        proof {
            lemma_lex_total(o[p as int], z@);
            assert(o[p as int] == z@);
            assert forall|x: Seq<char>| o.contains(x) || x == z@ implies o.contains(x) by {
                if x == z@ {
                    assert(o[p as int] == x);
                }
            }
        }
        return ;
    }
    keys.insert(p, z);
    let ghost n = char_views(keys@);
    proof {
        assert(n =~= o.insert(p as int, z@));
        assert forall|i: int, j: int| 0 <= i < j < n.len() implies lex_lt(
            #[trigger] n[i],
            #[trigger] n[j],
        ) by {
            if j < p {
                assert(n[i] == o[i] && n[j] == o[j]);
            } else if j == p {
                assert(n[i] == o[i]);
            } else if i == p {
                assert(n[j] == o[j - 1]);
                if j - 1 > p {
                    assert(lex_lt(o[p as int], o[j - 1]));
                    lemma_lex_transitive(z@, o[p as int], o[j - 1]);
                }
            } else if i < p {
                assert(n[i] == o[i] && n[j] == o[j - 1]);
            } else {
                assert(n[i] == o[i - 1] && n[j] == o[j - 1]);
            }
        }
        assert forall|x: Seq<char>| n.contains(x) <==> (o.contains(x) || x == z@) by {
            if n.contains(x) {
                let k = choose|k: int| 0 <= k < n.len() && n[k] == x;
                if k < p {
                    assert(o[k] == x);
                } else if k > p {
                    assert(o[k - 1] == x);
                }
            }
            if o.contains(x) {
                let k = choose|k: int| 0 <= k < o.len() && o[k] == x;
                if k < p {
                    assert(n[k] == x);
                } else {
                    assert(n[k + 1] == x);
                }
            }
            if x == z@ {
                assert(n[p as int] == x);
            }
        }
    }
}


/// The timezones that `rows` list for the territory `code`, in row order,
/// with repeats.
pub open spec fn zones_in(rows: Seq<(Seq<char>, Seq<char>)>, code: Seq<char>) -> Seq<Seq<char>>
    decreases rows.len(),
{
    if rows.len() == 0 {
        seq![]
    } else {
        let init = zones_in(rows.drop_last(), code);
        if rows.last().0 == code {
            init.push(rows.last().1)
        } else {
            init
        }
    }
}

/// Some row of `rows` has the timezone `z`.
pub open spec fn names_zone(rows: Seq<(Seq<char>, Seq<char>)>, z: Seq<char>) -> bool {
    exists|i: int| 0 <= i < rows.len() && (#[trigger] rows[i]).1 == z
}

/// Some row of `rows` has the territory code `code`.
pub open spec fn names_code(rows: Seq<(Seq<char>, Seq<char>)>, code: Seq<char>) -> bool {
    exists|i: int| 0 <= i < rows.len() && (#[trigger] rows[i]).0 == code
}

/// The character sequences held by a sequence of strings.
pub open spec fn string_views(s: Seq<String>) -> Seq<Seq<char>> {
    s.map_values(|x: String| x@)
}

/// The character sequences held by a sequence of string slices.
pub open spec fn str_views(s: Seq<&str>) -> Seq<Seq<char>> {
    s.map_values(|x: &str| x@)
}

/// Decides whether `a` and `b` hold the same characters.
fn eq_chars(a: &Vec<char>, b: &Vec<char>) -> (res: bool)
    ensures
        res == (a@ == b@),
{
    let lt = lex_less(a, b);
    let gt = lex_less(b, a);
    proof {
        lemma_lex_total(a@, b@);
        lemma_lex_irreflexive(a@);
    }
    !lt && !gt
}

/// The strictly sorted timezone names of `rows`, each once.
fn sorted_zone_keys(rows: &Vec<(String, String)>) -> (keys: Vec<Vec<char>>)
    ensures
        strictly_sorted(char_views(keys@)),
        forall|z: Seq<char>| char_views(keys@).contains(z) <==> names_zone(row_views(rows@), z),
{
    let ghost rv = row_views(rows@);
    let mut keys: Vec<Vec<char>> = Vec::new();
    let mut i: usize = 0;
    while i < rows.len()
        invariant
            i <= rows.len(),
            rv == row_views(rows@),
            strictly_sorted(char_views(keys@)),
            forall|z: Seq<char>|
                char_views(keys@).contains(z) <==> names_zone(rv.take(i as int), z),
        decreases rows.len() - i,
    {
        let z = chars_of(rows[i].1.as_str());
        let ghost old_keys = char_views(keys@);
        insert_sorted(&mut keys, z);
        proof {
            assert forall|x: Seq<char>|
                char_views(keys@).contains(x) <==> names_zone(rv.take(i + 1), x) by {
                if names_zone(rv.take(i + 1), x) {
                    let k = choose|k: int| 0 <= k < i + 1 && (#[trigger] rv.take(i + 1)[k]).1 == x;
                    if k < i {
                        assert(rv.take(i as int)[k] == rv.take(i + 1)[k]);
                    }
                }
                if names_zone(rv.take(i as int), x) {
                    let k = choose|k: int| 0 <= k < i && (#[trigger] rv.take(i as int)[k]).1 == x;
                    assert(rv.take(i + 1)[k] == rv.take(i as int)[k]);
                }
                if x == rv[i as int].1 {
                    assert(rv.take(i + 1)[i as int] == rv[i as int]);
                }
            }
        }
        i += 1;
    }
    assert(rv.take(rows.len() as int) =~= rv);
    keys
}

/// The position of `z` in `keys`.
fn find_key(keys: &Vec<Vec<char>>, z: &Vec<char>) -> (res: usize)
    requires
        char_views(keys@).contains(z@),
    ensures
        res < keys.len(),
        keys@[res as int]@ == z@,
{
    let ghost o = char_views(keys@);
    let mut p: usize = 0;
    while p < keys.len() && !eq_chars(&keys[p], z)
        invariant
            p <= keys.len(),
            o == char_views(keys@),
            o.contains(z@),
            forall|q: int| 0 <= q < p ==> #[trigger] o[q] != z@,
        decreases keys.len() - p,
    {
        p += 1;
    }
    if p == keys.len() {
        proof {
            let k = choose|k: int| 0 <= k < o.len() && o[k] == z@;
            assert(o[k] != z@);
        }
    }
    p
}

/// Whether `codes` holds a string with the characters of `s`.
fn contains_string(codes: &Vec<String>, s: &String) -> (res: bool)
    ensures
        res == string_views(codes@).contains(s@),
{
    let ghost cv = string_views(codes@);
    let mut k: usize = 0;
    while k < codes.len()
        invariant
            k <= codes.len(),
            cv == string_views(codes@),
            forall|q: int| 0 <= q < k ==> #[trigger] cv[q] != s@,
        decreases codes.len() - k,
    {
        if codes[k] == *s {
            assert(cv[k as int] == s@);
            return true;
        }
        k += 1;
    }
    false
}

/// The territory codes of `rows`, each once, in the order in which they
/// first appear.
fn territory_codes(rows: &Vec<(String, String)>) -> (codes: Vec<String>)
    ensures
        forall|k1: int, k2: int|
            0 <= k1 < k2 < codes.len() ==> (#[trigger] codes@[k1])@ != (#[trigger] codes@[k2])@,
        forall|c: Seq<char>| string_views(codes@).contains(c) <==> names_code(row_views(rows@), c),
{
    let ghost rv = row_views(rows@);
    let mut codes: Vec<String> = Vec::new();
    let mut i: usize = 0;
    while i < rows.len()
        invariant
            i <= rows.len(),
            rv == row_views(rows@),
            forall|k1: int, k2: int|
                0 <= k1 < k2 < codes.len() ==> (#[trigger] codes@[k1])@ != (#[trigger] codes@[k2])@,
            forall|c: Seq<char>|
                string_views(codes@).contains(c) <==> names_code(rv.take(i as int), c),
        decreases rows.len() - i,
    {
        let ghost old_codes = codes@;
        if !contains_string(&codes, &rows[i].0) {
            let code = rows[i].0.clone();
            codes.push(code);
            proof {
                assert forall|k1: int, k2: int| 0 <= k1 < k2 < codes.len() implies (
                #[trigger] codes@[k1])@ != (#[trigger] codes@[k2])@ by {
                    if k2 == codes.len() - 1 {
                        assert(string_views(old_codes)[k1] == codes@[k1]@);
                    } else {
                        assert(codes@[k1] == old_codes[k1] && codes@[k2] == old_codes[k2]);
                    }
                }
            }
        }
        proof {
            assert forall|c: Seq<char>|
                string_views(codes@).contains(c) <==> names_code(rv.take(i + 1), c) by {
                if names_code(rv.take(i + 1), c) {
                    let k = choose|k: int| 0 <= k < i + 1 && (#[trigger] rv.take(i + 1)[k]).0 == c;
                    if k < i {
                        assert(rv.take(i as int)[k] == rv.take(i + 1)[k]);
                        assert(names_code(rv.take(i as int), c));
                        assert(string_views(old_codes).contains(c));
                        let q = choose|q: int|
                            0 <= q < old_codes.len() && string_views(old_codes)[q] == c;
                        assert(string_views(codes@)[q] == c);
                    } else {
                        assert(rv[i as int].0 == c);
                        if string_views(old_codes).contains(c) {
                            let q = choose|q: int|
                                0 <= q < old_codes.len() && string_views(old_codes)[q] == c;
                            assert(string_views(codes@)[q] == c);
                        } else {
                            assert(string_views(codes@)[codes.len() - 1] == c);
                        }
                    }
                }
                if string_views(codes@).contains(c) {
                    let q = choose|q: int| 0 <= q < codes.len() && string_views(codes@)[q] == c;
                    if q < old_codes.len() {
                        assert(string_views(old_codes)[q] == c);
                        assert(string_views(old_codes).contains(c));
                        assert(names_code(rv.take(i as int), c));
                        let k = choose|k: int| 0 <= k < i && (#[trigger] rv.take(i as int)[k]).0 == c;
                        assert(rv.take(i + 1)[k] == rv.take(i as int)[k]);
                    } else {
                        assert(rv.take(i + 1)[i as int].0 == c);
                    }
                }
            }
        }
        i += 1;
    }
    assert(rv.take(rows.len() as int) =~= rv);
    codes
}

/// The positions in `keys` of the timezones that `rows` list for `code`, in
/// row order.
fn indices_for(
    rows: &Vec<(String, String)>,
    zone_idx: &Vec<usize>,
    keys: &Vec<Vec<char>>,
    code: &String,
) -> (idx: Vec<usize>)
    requires
        zone_idx.len() == rows.len(),
        forall|j: int|
            0 <= j < rows.len() ==> #[trigger] zone_idx@[j] < keys.len() && keys@[zone_idx@[j] as int]@
                == rows@[j].1@,
    ensures
        forall|m: int| 0 <= m < idx.len() ==> #[trigger] idx@[m] < keys.len(),
        idx@.map_values(|x: usize| keys@[x as int]@) == zones_in(row_views(rows@), code@),
{
    let ghost rv = row_views(rows@);
    let mut idx: Vec<usize> = Vec::new();
    let mut j: usize = 0;
    assert(idx@.map_values(|x: usize| keys@[x as int]@) =~= zones_in(rv.take(0), code@));
    while j < rows.len()
        invariant
            j <= rows.len(),
            rv == row_views(rows@),
            zone_idx.len() == rows.len(),
            forall|j: int|
                0 <= j < rows.len() ==> #[trigger] zone_idx@[j] < keys.len()
                    && keys@[zone_idx@[j] as int]@ == rows@[j].1@,
            forall|m: int| 0 <= m < idx.len() ==> #[trigger] idx@[m] < keys.len(),
            idx@.map_values(|x: usize| keys@[x as int]@) == zones_in(rv.take(j as int), code@),
        decreases rows.len() - j,
    {
        let ghost old_idx = idx@;
        assert(rv.take(j + 1).drop_last() =~= rv.take(j as int));
        assert(rv.take(j + 1).last() == rv[j as int]);
        if rows[j].0 == *code {
            idx.push(zone_idx[j]);
            assert(idx@.map_values(|x: usize| keys@[x as int]@) =~= old_idx.map_values(
                |x: usize| keys@[x as int]@,
            ).push(rv[j as int].1));
        }
        j += 1;
    }
    assert(rv.take(rows.len() as int) =~= rv);
    idx
}

/// A code that no row has lists no timezone.
proof fn lemma_zones_in_absent(rows: Seq<(Seq<char>, Seq<char>)>, code: Seq<char>)
    requires
        !names_code(rows, code),
    ensures
        zones_in(rows, code) == Seq::<Seq<char>>::empty(),
    decreases rows.len(),
{
    if rows.len() > 0 {
        assert(rows[rows.len() - 1] == rows.last());
        assert forall|i: int| 0 <= i < rows.drop_last().len() implies (
        #[trigger] rows.drop_last()[i]).0 != code by {
            assert(rows.drop_last()[i] == rows[i]);
        }
        lemma_zones_in_absent(rows.drop_last(), code);
    }
}

/// The timezone of a row is listed for the code of that row.
proof fn lemma_zones_in_has_row(rows: Seq<(Seq<char>, Seq<char>)>, j: int)
    requires
        0 <= j < rows.len(),
    ensures
        zones_in(rows, rows[j].0).contains(rows[j].1),
    decreases rows.len(),
{
    let code = rows[j].0;
    if j == rows.len() - 1 {
        assert(zones_in(rows, code).last() == rows[j].1);
        assert(zones_in(rows, code)[zones_in(rows, code).len() - 1] == rows[j].1);
    } else {
        assert(rows.drop_last()[j] == rows[j]);
        lemma_zones_in_has_row(rows.drop_last(), j);
        let init = zones_in(rows.drop_last(), code);
        let k = choose|k: int| 0 <= k < init.len() && init[k] == rows[j].1;
        if rows.last().0 == code {
            assert(zones_in(rows, code)[k] == rows[j].1);
        }
    }
}

/// `std::io::Error`, the error of a failed read, which the registry carries
/// through unopened.
#[verifier::external_type_specification]
#[verifier::external_body]
pub struct ExIoError(std::io::Error);

/// Errors in setting up the registry.
#[derive(Debug)]
pub enum Error {
    /// The table could not be read.
    IO(std::io::Error),
}

/// The timezones of the system's table: all of them, sorted, and those of
/// each territory.
pub struct Registry {
    timezones: Vec<String>,
    timezones_lookup: Vec<(String, Vec<usize>)>,
}

impl Registry {
    /// Every timezone, in the order that `all_timezones` gives them.
    pub closed spec fn zones(&self) -> Seq<Seq<char>> {
        string_views(self.timezones@)
    }

    /// The registry has an entry for the territory `code`.
    pub closed spec fn has_territory(&self, code: Seq<char>) -> bool {
        exists|k: int|
            0 <= k < self.timezones_lookup@.len() && (#[trigger] self.timezones_lookup@[k]).0@
                == code
    }

    /// The timezones of the territory `code`, in the order that
    /// `timezones_for_territory` gives them; none for an unknown code.
    pub closed spec fn territory_zones(&self, code: Seq<char>) -> Seq<Seq<char>> {
        if self.has_territory(code) {
            let k = choose|k: int|
                0 <= k < self.timezones_lookup@.len() && (#[trigger] self.timezones_lookup@[k]).0@
                    == code;
            self.timezones_lookup@[k].1@.map_values(|x: usize| self.zones()[x as int])
        } else {
            seq![]
        }
    }

    /// The registry is consistent: its timezones are strictly sorted, every
    /// position in a territory's entry names one of them, no territory has
    /// two entries, and every timezone belongs to some territory. Every
    /// registry is so.
    #[verifier::type_invariant]
    pub closed spec fn wf(&self) -> bool {
        &&& strictly_sorted(self.zones())
        &&& forall|k: int, m: int|
            0 <= k < self.timezones_lookup@.len() && 0 <= m < self.timezones_lookup@[k].1@.len()
                ==> #[trigger] self.timezones_lookup@[k].1@[m] < self.timezones@.len()
        &&& forall|k1: int, k2: int|
            0 <= k1 < k2 < self.timezones_lookup@.len() ==> (
            #[trigger] self.timezones_lookup@[k1]).0@ != (#[trigger] self.timezones_lookup@[k2]).0@
        &&& forall|i: int|
            0 <= i < self.zones().len() ==> self.zone_is_listed(#[trigger] self.zones()[i])
    }

    /// Some territory has the timezone `z`.
    pub closed spec fn zone_is_listed(&self, z: Seq<char>) -> bool {
        exists|code: Seq<char>| #[trigger] self.territory_zones(code).contains(z)
    }
}

impl Registry {
    /// Builds the registry of the table text `zone_tab` (the contents of
    /// `zone1970.tab`): its timezones are those that the table's rows name,
    /// sorted, each once, and the timezones of a territory are those of the
    /// rows of its code, in row order.
    pub fn from_zone_tab(zone_tab: &str) -> (reg: Registry)
        ensures
            reg.wf(),
            strictly_sorted(reg.zones()),
            forall|z: Seq<char>| reg.zones().contains(z) <==> names_zone(zone_rows(zone_tab@), z),
            forall|code: Seq<char>|
                #[trigger] reg.territory_zones(code) == zones_in(zone_rows(zone_tab@), code),
    {
        let rows = load_timezones_table(zone_tab);
        let ghost rv = row_views(rows@);
        let keys = sorted_zone_keys(&rows);
        let ghost kv = char_views(keys@);
        // The position of each row's timezone among the sorted timezones.
        let mut zone_idx: Vec<usize> = Vec::new();
        let mut j: usize = 0;
        while j < rows.len()
            invariant
                j <= rows.len(),
                rv == row_views(rows@),
                kv == char_views(keys@),
                forall|z: Seq<char>| kv.contains(z) <==> names_zone(rv, z),
                zone_idx.len() == j,
                forall|q: int|
                    0 <= q < j ==> #[trigger] zone_idx@[q] < keys.len() && keys@[zone_idx@[q] as int]@
                        == rows@[q].1@,
            decreases rows.len() - j,
        {
            let z = chars_of(rows[j].1.as_str());
            assert(rv[j as int].1 == z@);
            assert(kv.contains(z@));
            let p = find_key(&keys, &z);
            zone_idx.push(p);
            j += 1;
        }
        let codes = territory_codes(&rows);
        let mut lookup: Vec<(String, Vec<usize>)> = Vec::new();
        let mut k: usize = 0;
        while k < codes.len()
            invariant
                k <= codes.len(),
                rv == row_views(rows@),
                kv == char_views(keys@),
                zone_idx.len() == rows.len(),
                forall|q: int|
                    0 <= q < rows.len() ==> #[trigger] zone_idx@[q] < keys.len()
                        && keys@[zone_idx@[q] as int]@ == rows@[q].1@,
                lookup.len() == k,
                forall|q: int| 0 <= q < k ==> (#[trigger] lookup@[q]).0 == codes@[q],
                forall|q: int, m: int|
                    0 <= q < k && 0 <= m < lookup@[q].1@.len() ==> #[trigger] lookup@[q].1@[m]
                        < keys.len(),
                forall|q: int|
                    0 <= q < k ==> (#[trigger] lookup@[q]).1@.map_values(|x: usize| kv[x as int])
                        == zones_in(rv, lookup@[q].0@),
            decreases codes.len() - k,
        {
            let idx = indices_for(&rows, &zone_idx, &keys, &codes[k]);
            let code = codes[k].clone();
            lookup.push((code, idx));
            k += 1;
        }
        let mut timezones: Vec<String> = Vec::new();
        let mut i: usize = 0;
        while i < keys.len()
            invariant
                i <= keys.len(),
                kv == char_views(keys@),
                string_views(timezones@) == kv.take(i as int),
            decreases keys.len() - i,
        {
            let name = string_of(&keys[i]);
            let ghost before = timezones@;
            timezones.push(name);
            assert(string_views(timezones@) =~= string_views(before).push(kv[i as int]));
            assert(kv.take(i + 1) =~= kv.take(i as int).push(kv[i as int]));
            i += 1;
        }
        assert(kv.take(keys.len() as int) =~= kv);
        let ghost reg = Registry { timezones: timezones, timezones_lookup: lookup };
        proof {
            assert(reg.zones() == kv);
            assert(reg.timezones@.len() == kv.len());
            assert(strictly_sorted(reg.zones()));
            assert forall|c: int, m: int|
                0 <= c < reg.timezones_lookup@.len() && 0 <= m
                    < reg.timezones_lookup@[c].1@.len() implies #[trigger] reg.timezones_lookup@[c].1@[m]
                < reg.timezones@.len() by {
                assert(lookup@[c].1@[m] < keys.len());
            }
            assert forall|code: Seq<char>| #[trigger]
                reg.territory_zones(code) == zones_in(rv, code) by {
                if names_code(rv, code) {
                    assert(string_views(codes@).contains(code));
                    let q = choose|q: int| 0 <= q < codes.len() && string_views(codes@)[q] == code;
                    assert(reg.timezones_lookup@[q].0@ == code);
                    assert(reg.has_territory(code));
                    let c = choose|c: int|
                        0 <= c < reg.timezones_lookup@.len() && (
                        #[trigger] reg.timezones_lookup@[c]).0@ == code;
                    if c != q {
                        if c < q {
                            assert(codes@[c]@ != codes@[q]@);
                        } else {
                            assert(codes@[q]@ != codes@[c]@);
                        }
                    }
                    assert(reg.territory_zones(code) =~= zones_in(rv, code));
                } else {
                    lemma_zones_in_absent(rv, code);
                    if reg.has_territory(code) {
                        let c = choose|c: int|
                            0 <= c < reg.timezones_lookup@.len() && (
                            #[trigger] reg.timezones_lookup@[c]).0@ == code;
                        assert(string_views(codes@)[c] == code);
                        assert(string_views(codes@).contains(code));
                    }
                }
            }
            assert forall|i: int| 0 <= i < reg.zones().len() implies reg.zone_is_listed(
                #[trigger] reg.zones()[i],
            ) by {
                assert(kv.contains(kv[i]));
                let j = choose|j: int| 0 <= j < rv.len() && (#[trigger] rv[j]).1 == kv[i];
                lemma_zones_in_has_row(rv, j);
                assert(reg.territory_zones(rv[j].0) == zones_in(rv, rv[j].0));
                assert(reg.territory_zones(rv[j].0).contains(reg.zones()[i]));
            }
            assert forall|c1: int, c2: int|
                0 <= c1 < c2 < reg.timezones_lookup@.len() implies (
                #[trigger] reg.timezones_lookup@[c1]).0@ != (
                #[trigger] reg.timezones_lookup@[c2]).0@ by {
                assert(codes@[c1]@ != codes@[c2]@);
            }
        }
        let built = Registry { timezones, timezones_lookup: lookup };
        assert(built == reg);
        built
    }

    /// Builds the registry from the outcome of reading the table: the
    /// registry of the text that was read, or the read's error.
    pub fn new(zone_tab: Result<String, std::io::Error>) -> (res: Result<Registry, Error>)
        ensures
            match zone_tab {
                Ok(text) => match res {
                    Ok(reg) => {
                        &&& reg.wf()
                        &&& strictly_sorted(reg.zones())
                        &&& forall|z: Seq<char>|
                            reg.zones().contains(z) <==> names_zone(zone_rows(text@), z)
                        &&& forall|code: Seq<char>|
                            #[trigger] reg.territory_zones(code) == zones_in(
                                zone_rows(text@),
                                code,
                            )
                    },
                    Err(_) => false,
                },
                Err(e) => match res {
                    Ok(_) => false,
                    Err(Error::IO(f)) => f == e,
                },
            },
    {
        match zone_tab {
            Ok(text) => Ok(Self::from_zone_tab(text.as_str())),
            Err(e) => Err(Error::IO(e)),
        }
    }

    /// Every timezone, sorted, each once.
    pub fn all_timezones(&self) -> (res: &[String])
        ensures
            self.wf(),
            string_views(res@) == self.zones(),
            strictly_sorted(string_views(res@)),
    {
        proof {
            use_type_invariant(self);
        }
        self.timezones.as_slice()
    }

    /// The timezones of the territory `code2`, in the order of the table's
    /// rows; none for a code that the table does not have.
    pub fn timezones_for_territory(&self, code2: &str) -> (res: Vec<&str>)
        ensures
            self.wf(),
            str_views(res@) == self.territory_zones(code2@),
    {
        proof {
            use_type_invariant(self);
        }
        let key: String = code2.to_owned();
        let mut k: usize = 0;
        while k < self.timezones_lookup.len()
            invariant
                self.wf(),
                k <= self.timezones_lookup.len(),
                key@ == code2@,
                forall|q: int| 0 <= q < k ==> (#[trigger] self.timezones_lookup@[q]).0@ != code2@,
            decreases self.timezones_lookup.len() - k,
        {
            if self.timezones_lookup[k].0 == key {
                let idxs = &self.timezones_lookup[k].1;
                let ghost want = idxs@.map_values(|x: usize| self.zones()[x as int]);
                let mut res: Vec<&str> = Vec::new();
                let mut m: usize = 0;
                while m < idxs.len()
                    invariant
                        self.wf(),
                        k < self.timezones_lookup.len(),
                        idxs == &self.timezones_lookup@[k as int].1,
                        want == idxs@.map_values(|x: usize| self.zones()[x as int]),
                        m <= idxs.len(),
                        str_views(res@) == want.take(m as int),
                    decreases idxs.len() - m,
                {
                    assert(idxs@[m as int] < self.timezones@.len());
                    let name: &str = self.timezones[idxs[m]].as_str();
                    let ghost before = res@;
                    res.push(name);
                    assert(str_views(res@) =~= str_views(before).push(want[m as int]));
                    assert(want.take(m + 1) =~= want.take(m as int).push(want[m as int]));
                    m += 1;
                }
                proof {
                    assert(want.take(idxs.len() as int) =~= want);
                    assert(self.has_territory(code2@));
                    let c = choose|c: int|
                        0 <= c < self.timezones_lookup@.len() && (
                        #[trigger] self.timezones_lookup@[c]).0@ == code2@;
                    if c != k {
                        if c < k {
                            assert(self.timezones_lookup@[c].0@ != code2@);
                        } else {
                            assert(self.timezones_lookup@[k as int].0@
                                != self.timezones_lookup@[c].0@);
                        }
                    }
                }
                return res;
            }
            k += 1;
        }
        let res: Vec<&str> = Vec::new();
        assert(str_views(res@) =~= self.territory_zones(code2@));
        res
    }
}

/// Every timezone that a territory has is among all the timezones: what
/// `timezones_for_territory` gives, `all_timezones` holds.
pub proof fn lemma_territory_zones_are_listed(reg: Registry, code: Seq<char>)
    requires
        reg.wf(),
    ensures
        forall|j: int|
            0 <= j < reg.territory_zones(code).len() ==> reg.zones().contains(
                #[trigger] reg.territory_zones(code)[j],
            ),
{
    if reg.has_territory(code) {
        let k = choose|k: int|
            0 <= k < reg.timezones_lookup@.len() && (#[trigger] reg.timezones_lookup@[k]).0@
                == code;
        assert forall|j: int| 0 <= j < reg.territory_zones(code).len() implies reg.zones().contains(
            #[trigger] reg.territory_zones(code)[j],
        ) by {
            let x = reg.timezones_lookup@[k].1@[j];
            assert(x < reg.timezones@.len());
            assert(reg.zones()[x as int] == reg.territory_zones(code)[j]);
        }
    }
}

/// Every timezone that `all_timezones` holds belongs to some territory:
/// `timezones_for_territory` gives it for some code.
pub proof fn lemma_every_zone_has_a_territory(reg: Registry, z: Seq<char>)
    requires
        reg.wf(),
        reg.zones().contains(z),
    ensures
        exists|code: Seq<char>| #[trigger] reg.territory_zones(code).contains(z),
{
    let i = choose|i: int| 0 <= i < reg.zones().len() && reg.zones()[i] == z;
    assert(reg.zone_is_listed(reg.zones()[i]));
}

/// A code that no row of the table has gets no timezone.
pub proof fn lemma_unknown_code_has_no_zones(zone_tab: Seq<char>, code: Seq<char>)
    requires
        !names_code(zone_rows(zone_tab), code),
    ensures
        zones_in(zone_rows(zone_tab), code) == Seq::<Seq<char>>::empty(),
{
    lemma_zones_in_absent(zone_rows(zone_tab), code);
}

/// `all_timezones` is fixed by which timezones there are: two registries
/// with the same timezones list them in the same order.
pub proof fn lemma_all_timezones_fixed_by_names(r1: Registry, r2: Registry)
    requires
        r1.wf(),
        r2.wf(),
        forall|z: Seq<char>| r1.zones().contains(z) <==> r2.zones().contains(z),
    ensures
        r1.zones() == r2.zones(),
{
    lemma_strictly_sorted_unique(r1.zones(), r2.zones());
}

} // verus!
