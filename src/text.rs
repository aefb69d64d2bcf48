//! Character-level text handling: line splitting, substring search and
//! removal of every occurrence of a substring.
use vstd::prelude::*;
use vstd::std_specs::iter::IteratorSpec;

verus! {

/// The characters of `s`, in order.
pub(crate) fn chars_of(s: &str) -> (r: Vec<char>)
    ensures
        r@ == s@,
{
    broadcast use vstd::string::group_string_axioms;

    let mut it = s.chars();
    let mut out: Vec<char> = Vec::new();
    loop
        invariant
            out@ + IteratorSpec::remaining(&it) == s@,
            IteratorSpec::decrease(&it) is Some,
        decreases IteratorSpec::decrease(&it)->0,
    {
        let ghost before = IteratorSpec::remaining(&it);
        match it.next() {
            Some(c) => {
                let ghost prev = out@;
                out.push(c);
                assert(out@ + IteratorSpec::remaining(&it) =~= prev + before);
            },
            None => {
                assert(out@ + Seq::<char>::empty() =~= out@);
                return out;
            },
        }
    }
}

/// Relies on `String`'s `FromIterator<&char>`: the same characters, in order.
#[verifier::external_body]
pub(crate) fn string_of(v: &[char]) -> (r: String)
    ensures
        r@ == v@,
{
    v.iter().collect()
}

/// Leftmost index `j >= i` at which `pat` occurs in `s`, or -1 when there is none.
pub open spec fn match_from(s: Seq<char>, pat: Seq<char>, i: int) -> int
    decreases s.len() - i,
{
    if i < 0 || i + pat.len() > s.len() {
        -1
    } else if pat.len() == 0 {
        i
    } else if s.subrange(i, i + pat.len()) == pat {
        i
    } else {
        match_from(s, pat, i + 1)
    }
}

/// Index of the leftmost occurrence of `pat` in `s`, or -1 when there is none.
pub open spec fn first_match(s: Seq<char>, pat: Seq<char>) -> int {
    match_from(s, pat, 0)
}

/// `s` with every occurrence of `pat` taken out, the occurrences found from
/// left to right without overlap. An empty `pat` leaves `s` as it is.
pub open spec fn remove_all(s: Seq<char>, pat: Seq<char>) -> Seq<char>
    decreases s.len(),
{
    if pat.len() == 0 || s.len() == 0 {
        s
    } else if pat.len() <= s.len() && s.take(pat.len() as int) == pat {
        remove_all(s.skip(pat.len() as int), pat)
    } else {
        seq![s[0]] + remove_all(s.skip(1), pat)
    }
}

/// The pieces of `t` between newline characters, in order; there is always
/// at least one, the last one not followed by a newline.
pub open spec fn newline_pieces(t: Seq<char>) -> Seq<Seq<char>>
    decreases t.len(),
{
    if t.len() == 0 {
        seq![Seq::empty()]
    } else {
        let p = newline_pieces(t.drop_last());
        if t.last() == '\n' {
            p.push(Seq::empty())
        } else {
            p.update(p.len() - 1, p.last().push(t.last()))
        }
    }
}

/// A line without the carriage return that ends it, if any.
pub open spec fn without_cr(l: Seq<char>) -> Seq<char> {
    if l.len() > 0 && l.last() == '\r' {
        l.drop_last()
    } else {
        l
    }
}

/// The lines of `t`: each piece ended by `\n` loses a final `\r`; a last
/// piece that is empty is no line.
pub open spec fn lines_of(t: Seq<char>) -> Seq<Seq<char>> {
    let p = newline_pieces(t);
    let ended = p.drop_last().map_values(|l: Seq<char>| without_cr(l));
    if p.last().len() == 0 {
        ended
    } else {
        ended.push(p.last())
    }
}

/// The character views of a sequence of strings.
pub open spec fn views(v: Seq<String>) -> Seq<Seq<char>> {
    v.map_values(|l: String| l@)
}

/// Whether `pat` occurs in `s` at index `i`.
fn occurs_at(s: &Vec<char>, pat: &Vec<char>, i: usize) -> (r: bool)
    requires
        i + pat@.len() <= s@.len(),
    ensures
        r == (s@.subrange(i as int, i + pat@.len()) == pat@),
{
    let n = s.len();
    let mut j: usize = 0;
    while j < pat.len()
        invariant
            n == s@.len(),
            j <= pat@.len(),
            i + pat@.len() <= s@.len(),
            forall|k: int| 0 <= k < j ==> s@[i + k] == pat@[k],
        decreases pat@.len() - j,
    {
        if s[i + j] != pat[j] {
            assert(s@.subrange(i as int, i + pat@.len())[j as int] != pat@[j as int]);
            return false;
        }
        j = j + 1;
    }
    assert(s@.subrange(i as int, i + pat@.len()) =~= pat@);
    true
}

/// Leftmost index at or after `start` at which `pat` occurs in `s`.
pub fn find_from(s: &Vec<char>, pat: &Vec<char>, start: usize) -> (r: Option<usize>)
    requires
        start <= s@.len(),
    ensures
        match r {
            Some(i) => i as int == match_from(s@, pat@, start as int),
            None => match_from(s@, pat@, start as int) == -1,
        },
{
    let mut i: usize = start;
    while i <= s.len()
        invariant
            start <= i,
            match_from(s@, pat@, start as int) == match_from(s@, pat@, i as int),
        decreases s@.len() + 1 - i,
    {
        if pat.len() > s.len() - i {
            return None;
        }
        if pat.len() == 0 || occurs_at(s, pat, i) {
            return Some(i);
        }
        i = i + 1;
    }
    None
}

/// `s` with every occurrence of `pat` taken out.
pub fn strip_all(s: &Vec<char>, pat: &Vec<char>) -> (r: Vec<char>)
    ensures
        r@ == remove_all(s@, pat@),
{
    let mut out: Vec<char> = Vec::new();
    let mut i: usize = 0;
    assert(s@.skip(0) =~= s@);
    assert(out@ + remove_all(s@, pat@) =~= remove_all(s@, pat@));
    while i < s.len()
        invariant
            i <= s@.len(),
            out@ + remove_all(s@.skip(i as int), pat@) == remove_all(s@, pat@),
        decreases s@.len() - i,
    {
        let ghost t = s@.skip(i as int);
        if pat.len() > 0 && pat.len() <= s.len() - i && occurs_at(s, pat, i) {
            assert(t.take(pat@.len() as int) =~= s@.subrange(i as int, i + pat@.len()));
            assert(t.skip(pat@.len() as int) =~= s@.skip(i + pat@.len()));
            i = i + pat.len();
        } else {
            proof {
                if pat@.len() > 0 && pat@.len() <= t.len() {
                    assert(t.take(pat@.len() as int) =~= s@.subrange(i as int, i + pat@.len()));
                }
                if pat@.len() == 0 {
                    assert(t =~= seq![t[0]] + t.skip(1));
                }
                assert(t.skip(1) =~= s@.skip(i + 1));
            }
            let ghost before = out@;
            out.push(s[i]);
            assert(out@ + remove_all(s@.skip(i + 1), pat@) =~= before + (seq![t[0]] + remove_all(
                t.skip(1),
                pat@,
            )));
            i = i + 1;
        }
    }
    assert(s@.skip(i as int) =~= Seq::<char>::empty());
    assert(out@ + Seq::<char>::empty() =~= out@);
    out
}

/// The lines of `data`, split at `\n` or `\r\n`; a final line ending is optional.
pub fn get_lines(data: String) -> (r: Vec<String>)
    ensures
        views(r@) == lines_of(data@),
{
    let chars = chars_of(data.as_str());
    let mut out: Vec<String> = Vec::new();
    let mut current: Vec<char> = Vec::new();
    let mut i: usize = 0;
    proof {
        assert(chars@.take(0) =~= Seq::<char>::empty());
        assert(views(out@) =~= newline_pieces(chars@.take(0)).drop_last().map_values(
            |l: Seq<char>| without_cr(l),
        ));
    }
    while i < chars.len()
        invariant
            i <= chars@.len(),
            newline_pieces(chars@.take(i as int)).len() >= 1,
            views(out@) == newline_pieces(chars@.take(i as int)).drop_last().map_values(
                |l: Seq<char>| without_cr(l),
            ),
            newline_pieces(chars@.take(i as int)).last() == current@,
        decreases chars@.len() - i,
    {
        let c = chars[i];
        let ghost p = newline_pieces(chars@.take(i as int));
        assert(chars@.take(i + 1).drop_last() =~= chars@.take(i as int));
        assert(chars@.take(i + 1).last() == c);
        if c == '\n' {
            let n = current.len();
            if n > 0 && current[n - 1] == '\r' {
                current.pop();
            }
            let line = string_of(current.as_slice());
            let ghost before = out@;
            out.push(line);
            proof {
                let q = newline_pieces(chars@.take(i + 1));
                assert(q.drop_last() =~= p);
                assert(views(out@) =~= views(before).push(line@));
                assert(p =~= p.drop_last().push(p.last()));
                assert(p.map_values(|l: Seq<char>| without_cr(l)) =~= p.drop_last().map_values(
                    |l: Seq<char>| without_cr(l),
                ).push(without_cr(p.last())));
            }
            current = Vec::new();
        } else {
            current.push(c);
            proof {
                let q = newline_pieces(chars@.take(i + 1));
                assert(q.drop_last() =~= p.drop_last());
            }
        }
        i = i + 1;
    }
    assert(chars@.take(i as int) =~= chars@);
    if current.len() > 0 {
        let line = string_of(current.as_slice());
        let ghost before = out@;
        out.push(line);
        assert(views(out@) =~= views(before).push(line@));
    }
    out
}

} // verus!
