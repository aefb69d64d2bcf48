//! The redirect mapping and how it is built from the lines of an input text.
use vstd::prelude::*;
use crate::config::{Config, resolve, resolved_delimiter, resolved_url};
use crate::text::{
    chars_of, find_from, first_match, match_from, remove_all, string_of, strip_all, views,
};

verus! {

/// The two fields of a line: the text before the first occurrence of
/// `delim`, and the text from there to the next occurrence or to the end of
/// the line; `None` where `delim` does not occur. An empty `delim` occurs
/// before every character: the fields are then empty and the first character.
pub open spec fn line_fields(line: Seq<char>, delim: Seq<char>) -> Option<(Seq<char>, Seq<char>)> {
    if delim.len() == 0 {
        Some((Seq::empty(), if line.len() == 0 { line } else { line.take(1) }))
    } else {
        let i = first_match(line, delim);
        if i < 0 {
            None
        } else {
            let start = i + delim.len();
            let j = match_from(line, delim, start);
            Some((line.take(i), line.subrange(start, if j < 0 { line.len() as int } else { j })))
        }
    }
}

/// The entry that a line gives: its two fields with every occurrence of `url` taken out.
pub open spec fn line_entry(line: Seq<char>, delim: Seq<char>, url: Seq<char>) -> (
    Seq<char>,
    Seq<char>,
) {
    let f = line_fields(line, delim)->Some_0;
    (remove_all(f.0, url), remove_all(f.1, url))
}

/// Whether a line gives an entry: it is not empty and holds the delimiter.
pub open spec fn well_formed(line: Seq<char>, delim: Seq<char>) -> bool {
    line.len() > 0 && line_fields(line, delim) is Some
}

/// The mapping that `lines` give, each entry in turn replacing an earlier one
/// with the same key and empty lines skipped; or the number, counted from
/// 1, of the first line that is neither empty nor holds the delimiter.
pub open spec fn build(lines: Seq<Seq<char>>, delim: Seq<char>, url: Seq<char>) -> Result<
    Map<Seq<char>, Seq<char>>,
    nat,
>
    decreases lines.len(),
{
    if lines.len() == 0 {
        Ok(Map::empty())
    } else {
        match build(lines.drop_last(), delim, url) {
            Err(n) => Err(n),
            Ok(m) => {
                let l = lines.last();
                if l.len() == 0 {
                    Ok(m)
                } else if line_fields(l, delim) is None {
                    Err(lines.len())
                } else {
                    Ok(m.insert(line_entry(l, delim, url).0, line_entry(l, delim, url).1))
                }
            },
        }
    }
}

/// The mapping that a sequence of pairs gives, a later pair replacing an
/// earlier one with the same key.
pub open spec fn map_of(ps: Seq<(Seq<char>, Seq<char>)>) -> Map<Seq<char>, Seq<char>>
    decreases ps.len(),
{
    if ps.len() == 0 {
        Map::empty()
    } else {
        map_of(ps.drop_last()).insert(ps.last().0, ps.last().1)
    }
}

pub open spec fn keys_distinct(ps: Seq<(Seq<char>, Seq<char>)>) -> bool {
    forall|i: int, j: int| 0 <= i < j < ps.len() ==> ps[i].0 != ps[j].0
}

pub open spec fn pairs_view(es: Seq<(String, String)>) -> Seq<(Seq<char>, Seq<char>)> {
    es.map_values(|e: (String, String)| (e.0@, e.1@))
}

proof fn lemma_map_of_at(ps: Seq<(Seq<char>, Seq<char>)>, i: int)
    requires
        keys_distinct(ps),
        0 <= i < ps.len(),
    ensures
        map_of(ps).contains_key(ps[i].0),
        map_of(ps)[ps[i].0] == ps[i].1,
    decreases ps.len(),
{
    if i < ps.len() - 1 {
        lemma_map_of_at(ps.drop_last(), i);
    }
}

proof fn lemma_map_of_absent(ps: Seq<(Seq<char>, Seq<char>)>, k: Seq<char>)
    requires
        forall|i: int| 0 <= i < ps.len() ==> ps[i].0 != k,
    ensures
        !map_of(ps).contains_key(k),
    decreases ps.len(),
{
    if ps.len() > 0 {
        lemma_map_of_absent(ps.drop_last(), k);
    }
}

proof fn lemma_map_of_len(ps: Seq<(Seq<char>, Seq<char>)>)
    requires
        keys_distinct(ps),
    ensures
        map_of(ps).dom().finite(),
        map_of(ps).len() == ps.len(),
    decreases ps.len(),
{
    if ps.len() > 0 {
        let q = ps.drop_last();
        lemma_map_of_len(q);
        lemma_map_of_absent(q, ps.last().0);
    }
}

proof fn lemma_map_of_update(ps: Seq<(Seq<char>, Seq<char>)>, j: int, v: Seq<char>)
    requires
        keys_distinct(ps),
        0 <= j < ps.len(),
    ensures
        map_of(ps.update(j, (ps[j].0, v))) =~= map_of(ps).insert(ps[j].0, v),
    decreases ps.len(),
{
    let k = ps[j].0;
    let q = ps.update(j, (k, v));
    if j == ps.len() - 1 {
        assert(q.drop_last() =~= ps.drop_last());
    } else {
        assert(q.drop_last() =~= ps.drop_last().update(j, (k, v)));
        lemma_map_of_update(ps.drop_last(), j, v);
    }
}

/// A mapping from source paths to destinations; keys are unique and entries
/// keep the order in which their keys first came.
pub struct RedirectMap {
    entries: Vec<(String, String)>,
}

impl View for RedirectMap {
    type V = Map<Seq<char>, Seq<char>>;

    closed spec fn view(&self) -> Map<Seq<char>, Seq<char>> {
        map_of(self.pairs())
    }
}

impl RedirectMap {
    /// The entries, in order, as character sequences.
    pub closed spec fn pairs(&self) -> Seq<(Seq<char>, Seq<char>)> {
        pairs_view(self.entries@)
    }

    pub open spec fn wf(&self) -> bool {
        keys_distinct(self.pairs())
    }

    /// The mapping is the one its entries give.
    pub proof fn lemma_view(&self)
        ensures
            self@ == map_of(self.pairs()),
    {
    }

    pub fn new() -> (r: RedirectMap)
        ensures
            r.wf(),
            r@ == Map::<Seq<char>, Seq<char>>::empty(),
            r.pairs() == Seq::<(Seq<char>, Seq<char>)>::empty(),
    {
        let r = RedirectMap { entries: Vec::new() };
        assert(r.pairs() =~= Seq::<(Seq<char>, Seq<char>)>::empty());
        r
    }

    /// Index of the entry with key `key`.
    fn position(&self, key: &String) -> (r: Option<usize>)
        requires
            self.wf(),
        ensures
            match r {
                Some(j) => j < self.pairs().len() && self.pairs()[j as int].0 == key@,
                None => forall|i: int| 0 <= i < self.pairs().len() ==> self.pairs()[i].0 != key@,
            },
    {
        let mut j: usize = 0;
        while j < self.entries.len()
            invariant
                j <= self.entries@.len(),
                forall|i: int| 0 <= i < j ==> self.pairs()[i].0 != key@,
            decreases self.entries@.len() - j,
        {
            if self.entries[j].0 == *key {
                return Some(j);
            }
            j = j + 1;
        }
        None
    }

    /// Sets the entry of `key` to `value`, replacing the one it had.
    pub fn insert(&mut self, key: String, value: String)
        requires
            old(self).wf(),
        ensures
            final(self).wf(),
            final(self)@ == old(self)@.insert(key@, value@),
            match map_index(old(self).pairs(), key@) {
                Some(j) => final(self).pairs() == old(self).pairs().update(j, (key@, value@)),
                None => final(self).pairs() == old(self).pairs().push((key@, value@)),
            },
    {
        proof {
            lemma_map_index(self.pairs(), key@);
        }
        match self.position(&key) {
            Some(j) => {
                let ghost before = self.pairs();
                proof {
                    lemma_map_of_update(before, j as int, value@);
                }
                self.entries.set(j, (key, value));
                assert(self.pairs() =~= before.update(j as int, (key@, value@)));
            },
            None => {
                let ghost before = self.pairs();
                self.entries.push((key, value));
                assert(self.pairs() =~= before.push((key@, value@)));
                assert(self.pairs().drop_last() =~= before);
            },
        }
    }

    /// The destination of `key`, if it has one.
    pub fn get(&self, key: &String) -> (r: Option<&String>)
        requires
            self.wf(),
        ensures
            r is Some <==> self@.contains_key(key@),
            r is Some ==> self@[key@] == r->Some_0@,
    {
        match self.position(key) {
            Some(j) => {
                proof {
                    lemma_map_of_at(self.pairs(), j as int);
                }
                Some(&self.entries[j].1)
            },
            None => {
                proof {
                    lemma_map_of_absent(self.pairs(), key@);
                }
                None
            },
        }
    }

    /// The number of entries.
    pub fn len(&self) -> (r: usize)
        requires
            self.wf(),
        ensures
            r == self@.len(),
            r == self.pairs().len(),
    {
        proof {
            lemma_map_of_len(self.pairs());
        }
        self.entries.len()
    }

    /// The entries, in order.
    pub fn entries(&self) -> (r: &Vec<(String, String)>)
        ensures
            pairs_view(r@) == self.pairs(),
    {
        &self.entries
    }
}

/// Index of the first pair with key `k`.
pub open spec fn map_index(ps: Seq<(Seq<char>, Seq<char>)>, k: Seq<char>) -> Option<int> {
    if exists|i: int| 0 <= i < ps.len() && ps[i].0 == k {
        Some(choose|i: int| 0 <= i < ps.len() && ps[i].0 == k)
    } else {
        None
    }
}

proof fn lemma_map_index(ps: Seq<(Seq<char>, Seq<char>)>, k: Seq<char>)
    requires
        keys_distinct(ps),
    ensures
        match map_index(ps, k) {
            Some(j) => 0 <= j < ps.len() && ps[j].0 == k && forall|i: int|
                0 <= i < ps.len() && ps[i].0 == k ==> i == j,
            None => forall|i: int| 0 <= i < ps.len() ==> ps[i].0 != k,
        },
{
}

/// The line at fault when building a mapping.
#[derive(Debug, Clone, Copy, PartialEq, Eq, Structural)]
pub struct MalformedLine {
    /// The line's number, counted from 1.
    pub line: usize,
}

proof fn lemma_match_from_bounds(s: Seq<char>, pat: Seq<char>, a: int)
    ensures
        match_from(s, pat, a) == -1 || (0 <= a <= match_from(s, pat, a) && match_from(s, pat, a)
            + pat.len() <= s.len()),
    decreases s.len() - a,
{
    if 0 <= a && a + pat.len() <= s.len() && pat.len() > 0 && s.subrange(a, a + pat.len()) != pat {
        lemma_match_from_bounds(s, pat, a + 1);
    }
}

/// The number of lines that are not empty.
pub open spec fn nonempty_count(lines: Seq<Seq<char>>) -> nat
    decreases lines.len(),
{
    if lines.len() == 0 {
        0
    } else {
        nonempty_count(lines.drop_last()) + if lines.last().len() > 0 {
            1nat
        } else {
            0nat
        }
    }
}

/// Lines that are each empty or give an entry, no two of the entries with
/// the same key, give a mapping with exactly one entry per non-empty line.
pub proof fn law_distinct_keys_count(lines: Seq<Seq<char>>, delim: Seq<char>, url: Seq<char>)
    requires
        forall|i: int|
            0 <= i < lines.len() ==> lines[i].len() == 0 || #[trigger] well_formed(
                lines[i],
                delim,
            ),
        forall|i: int, j: int|
            0 <= i < j < lines.len() && well_formed(lines[i], delim) && well_formed(
                lines[j],
                delim,
            ) ==> #[trigger] line_entry(lines[i], delim, url).0 != #[trigger] line_entry(
                lines[j],
                delim,
                url,
            ).0,
    ensures
        build(lines, delim, url) is Ok,
        build(lines, delim, url)->Ok_0.dom().finite(),
        build(lines, delim, url)->Ok_0.len() == nonempty_count(lines),
        forall|k: Seq<char>| #[trigger]
            build(lines, delim, url)->Ok_0.contains_key(k) ==> exists|i: int|
                0 <= i < lines.len() && well_formed(lines[i], delim) && line_entry(
                    lines[i],
                    delim,
                    url,
                ).0 == k,
    decreases lines.len(),
{
    if lines.len() > 0 {
        let q = lines.drop_last();
        assert forall|i: int| 0 <= i < q.len() implies q[i].len() == 0 || #[trigger] well_formed(
            q[i],
            delim,
        ) by {
            assert(lines[i] == q[i]);
        }
        assert forall|i: int, j: int|
            0 <= i < j < q.len() && well_formed(q[i], delim) && well_formed(
                q[j],
                delim,
            ) implies #[trigger] line_entry(q[i], delim, url).0 != #[trigger] line_entry(
            q[j],
            delim,
            url,
        ).0 by {
            assert(line_entry(lines[i], delim, url).0 != line_entry(lines[j], delim, url).0);
        }
        law_distinct_keys_count(q, delim, url);
        let m = build(q, delim, url)->Ok_0;
        let n = lines.len() - 1;
        if lines[n].len() > 0 {
            assert(well_formed(lines[n], delim));
            let k = line_entry(lines[n], delim, url).0;
            if m.contains_key(k) {
                let i = choose|i: int|
                    0 <= i < q.len() && well_formed(q[i], delim) && line_entry(q[i], delim, url).0
                        == k;
                assert(line_entry(lines[i], delim, url).0 != line_entry(lines[n], delim, url).0);
            }
            let r = build(lines, delim, url)->Ok_0;
            assert forall|k2: Seq<char>| #[trigger] r.contains_key(k2) implies exists|i: int|
                0 <= i < lines.len() && well_formed(lines[i], delim) && line_entry(
                    lines[i],
                    delim,
                    url,
                ).0 == k2 by {
                if k2 != k {
                    assert(m.contains_key(k2));
                    let i = choose|i: int|
                        0 <= i < q.len() && well_formed(q[i], delim) && line_entry(
                            q[i],
                            delim,
                            url,
                        ).0 == k2;
                    assert(lines[i] == q[i]);
                } else {
                    assert(well_formed(lines[n], delim));
                }
            }
        } else {
            let r = build(lines, delim, url)->Ok_0;
            assert forall|k2: Seq<char>| #[trigger] r.contains_key(k2) implies exists|i: int|
                0 <= i < lines.len() && well_formed(lines[i], delim) && line_entry(
                    lines[i],
                    delim,
                    url,
                ).0 == k2 by {
                let i = choose|i: int|
                    0 <= i < q.len() && well_formed(q[i], delim) && line_entry(q[i], delim, url).0
                        == k2;
                assert(lines[i] == q[i]);
            }
        }
    }
}

/// Of the lines that give an entry with the same key, the last one decides
/// that key's destination.
pub proof fn law_last_wins(lines: Seq<Seq<char>>, delim: Seq<char>, url: Seq<char>, j: int)
    requires
        0 <= j < lines.len(),
        well_formed(lines[j], delim),
        build(lines, delim, url) is Ok,
        forall|i: int|
            j < i < lines.len() && well_formed(lines[i], delim) ==> #[trigger] line_entry(
                lines[i],
                delim,
                url,
            ).0 != line_entry(lines[j], delim, url).0,
    ensures
        build(lines, delim, url)->Ok_0.contains_key(line_entry(lines[j], delim, url).0),
        build(lines, delim, url)->Ok_0[line_entry(lines[j], delim, url).0] == line_entry(
            lines[j],
            delim,
            url,
        ).1,
    decreases lines.len(),
{
    let q = lines.drop_last();
    if j < lines.len() - 1 {
        assert forall|i: int|
            j < i < q.len() && well_formed(q[i], delim) implies #[trigger] line_entry(
                q[i],
                delim,
                url,
            ).0 != line_entry(q[j], delim, url).0 by {
            assert(line_entry(lines[i], delim, url).0 != line_entry(lines[j], delim, url).0);
        }
        law_last_wins(q, delim, url, j);
        let n = lines.len() - 1;
        if well_formed(lines[n], delim) {
            assert(line_entry(lines[n], delim, url).0 != line_entry(lines[j], delim, url).0);
        }
    }
}

/// Once a prefix of the lines fails, all of them fail alike.
proof fn lemma_build_err_prefix(lines: Seq<Seq<char>>, k: int, delim: Seq<char>, url: Seq<char>)
    requires
        0 <= k <= lines.len(),
        build(lines.take(k), delim, url) is Err,
    ensures
        build(lines, delim, url) == build(lines.take(k), delim, url),
    decreases lines.len(),
{
    if k == lines.len() {
        assert(lines.take(k) =~= lines);
    } else {
        assert(lines.drop_last().take(k) =~= lines.take(k));
        lemma_build_err_prefix(lines.drop_last(), k, delim, url);
    }
}

/// The characters of `s` from `from` up to `to`.
fn segment(s: &Vec<char>, from: usize, to: usize) -> (r: Vec<char>)
    requires
        from <= to <= s@.len(),
    ensures
        r@ == s@.subrange(from as int, to as int),
{
    let mut out: Vec<char> = Vec::new();
    let mut i: usize = from;
    while i < to
        invariant
            from <= i <= to,
            to <= s@.len(),
            out@ == s@.subrange(from as int, i as int),
        decreases to - i,
    {
        out.push(s[i]);
        i = i + 1;
        assert(out@ =~= s@.subrange(from as int, i as int));
    }
    out
}

/// The two fields of `line` split at `delim`, as `line_fields` gives them.
pub fn split_line(line: &Vec<char>, delim: &Vec<char>) -> (r: Option<(Vec<char>, Vec<char>)>)
    ensures
        match line_fields(line@, delim@) {
            None => r is None,
            Some(f) => r is Some && r->Some_0.0@ == f.0 && r->Some_0.1@ == f.1,
        },
{
    if delim.len() == 0 {
        let first = if line.len() == 0 {
            Vec::new()
        } else {
            segment(line, 0, 1)
        };
        return Some((Vec::new(), first));
    }
    match find_from(line, delim, 0) {
        None => None,
        Some(i) => {
            let n = line.len();
            proof {
                lemma_match_from_bounds(line@, delim@, 0);
            }
            let start = i + delim.len();
            let end = match find_from(line, delim, start) {
                Some(j) => j,
                None => line.len(),
            };
            proof {
                lemma_match_from_bounds(line@, delim@, start as int);
            }
            Some((segment(line, 0, i), segment(line, start, end)))
        },
    }
}

/// The mapping that the lines give under `config`, each field missing from
/// `config` taking its default; or the first line that is neither empty nor
/// holds the delimiter.
pub fn create_map(lines: Vec<String>, config: Config) -> (r: Result<RedirectMap, MalformedLine>)
    ensures
        match build(
            views(lines@),
            resolved_delimiter(Some(config)),
            resolved_url(Some(config)),
        ) {
            Ok(m) => r is Ok && r->Ok_0.wf() && r->Ok_0@ == m,
            Err(n) => r is Err && r->Err_0.line == n,
        },
{
    let settings = resolve(Some(config));
    let delim = chars_of(settings.delimiter.as_str());
    let url = chars_of(settings.url.as_str());
    let ghost d = resolved_delimiter(Some(config));
    let ghost u = resolved_url(Some(config));
    let mut map = RedirectMap::new();
    let mut i: usize = 0;
    assert(views(lines@).take(0) =~= Seq::<Seq<char>>::empty());
    while i < lines.len()
        invariant
            i <= lines@.len(),
            delim@ == d,
            url@ == u,
            d == resolved_delimiter(Some(config)),
            u == resolved_url(Some(config)),
            map.wf(),
            build(views(lines@).take(i as int), d, u) == Ok::<Map<Seq<char>, Seq<char>>, nat>(
                map@,
            ),
        decreases lines@.len() - i,
    {
        let line = chars_of(lines[i].as_str());
        let ghost prefix = views(lines@).take(i + 1);
        assert(prefix.drop_last() =~= views(lines@).take(i as int));
        assert(prefix.last() == line@);
        if line.len() > 0 {
            match split_line(&line, &delim) {
                None => {
                    proof {
                        assert(build(prefix, d, u) == Err::<Map<Seq<char>, Seq<char>>, nat>(
                            (i + 1) as nat,
                        ));
                        lemma_build_err_prefix(views(lines@), (i + 1) as int, d, u);
                    }
                    return Err(MalformedLine { line: i + 1 });
                },
                Some(fields) => {
                    let key = string_of(strip_all(&fields.0, &url).as_slice());
                    let value = string_of(strip_all(&fields.1, &url).as_slice());
                    map.insert(key, value);
                },
            }
        }
        i = i + 1;
    }
    assert(views(lines@).take(i as int) =~= views(lines@));
    Ok(map)
}

} // verus!
