//! The XML document of redirect rules that a mapping gives.
use vstd::prelude::*;
use vstd::string::StringExecFns;
use crate::mapping::{pairs_view, RedirectMap};

verus! {

pub open spec fn header() -> Seq<char> {
    "<httpRedirect enabled=\"true\" exactDestination=\"true\" httpResponseStatus=\"Permanent\">\n"@
}

pub open spec fn footer() -> Seq<char> {
    "</httpRedirect>\n"@
}

/// The line of one rule; key and value stand in it as they are, unescaped.
pub open spec fn rule_line(key: Seq<char>, value: Seq<char>) -> Seq<char> {
    "\t<add wildcard=\""@ + key + "\" destination=\""@ + value + "\" />\n"@
}

/// The lines of the rules, one per pair, in order.
pub open spec fn rule_lines(ps: Seq<(Seq<char>, Seq<char>)>) -> Seq<char>
    decreases ps.len(),
{
    if ps.len() == 0 {
        Seq::empty()
    } else {
        rule_lines(ps.drop_last()) + rule_line(ps.last().0, ps.last().1)
    }
}

/// The document: the opening tag, one rule line per pair, the closing tag.
pub open spec fn document_of(ps: Seq<(Seq<char>, Seq<char>)>) -> Seq<char> {
    header() + rule_lines(ps) + footer()
}

/// The document of the entries of `map`, in the map's order.
pub fn render(map: &RedirectMap) -> (r: String)
    ensures
        r@ == document_of(map.pairs()),
{
    let entries = map.entries();
    let ghost ps = pairs_view(entries@);
    let mut out = String::new();
    out.append(
        "<httpRedirect enabled=\"true\" exactDestination=\"true\" httpResponseStatus=\"Permanent\">\n",
    );
    let mut i: usize = 0;
    assert(ps.take(0) =~= Seq::<(Seq<char>, Seq<char>)>::empty());
    assert(out@ =~= header() + rule_lines(ps.take(0)));
    while i < entries.len()
        invariant
            i <= entries@.len(),
            ps == pairs_view(entries@),
            out@ == header() + rule_lines(ps.take(i as int)),
        decreases entries@.len() - i,
    {
        let ghost before = out@;
        let entry = &entries[i];
        out.append("\t<add wildcard=\"");
        out.append(entry.0.as_str());
        out.append("\" destination=\"");
        out.append(entry.1.as_str());
        out.append("\" />\n");
        assert(ps.take(i + 1).drop_last() =~= ps.take(i as int));
        assert(out@ =~= header() + rule_lines(ps.take(i + 1)));
        i = i + 1;
    }
    assert(ps.take(i as int) =~= ps);
    out.append("</httpRedirect>\n");
    out
}

} // verus!
