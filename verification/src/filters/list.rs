//! Allow- and deny-list filters over server domains, built from the raw
//! line-oriented text of a domain list: one domain per non-empty line.

use crate::servers::{Server, ServerView};
use crate::filters::Filter;
use vstd::prelude::*;

verus! {

/// Position of the first newline of a sequence, or its length if it has none.
pub open spec fn spec_first_nl(s: Seq<char>) -> nat
    decreases s.len(),
{
    if s.len() == 0 {
        0
    } else if s[0] == '\n' {
        0
    } else {
        (1 + spec_first_nl(s.skip(1))) as nat
    }
}

/// What `spec_first_nl` points at: no newline lies before it, and a newline
/// stands at it unless the sequence has none at all.
pub proof fn lemma_first_nl(s: Seq<char>)
    ensures
        spec_first_nl(s) <= s.len(),
        forall|k: int| 0 <= k < spec_first_nl(s) ==> s[k] != '\n',
        spec_first_nl(s) < s.len() ==> s[spec_first_nl(s) as int] == '\n',
    decreases s.len(),
{
    if s.len() == 0 {
    } else if s[0] == '\n' {
    } else {
        lemma_first_nl(s.skip(1));
        let i = spec_first_nl(s) as int;
        assert forall|k: int| 0 <= k < i implies s[k] != '\n' by {
            if k > 0 {
                assert(s.skip(1)[k - 1] == s[k]);
            }
        }
        if i < s.len() {
            assert(s.skip(1)[i - 1] == s[i]);
        }
    }
}

/// A position before which no newline stands, and at which one stands (unless
/// it is the end), is the first newline position.
pub proof fn lemma_first_nl_is(s: Seq<char>, k: int)
    requires
        0 <= k <= s.len(),
        forall|j: int| 0 <= j < k ==> s[j] != '\n',
        k < s.len() ==> s[k] == '\n',
    ensures
        spec_first_nl(s) == k,
    decreases s.len(),
{
    if k == 0 {
    } else {
        assert(s[0] != '\n');
        assert forall|j: int| 0 <= j < k - 1 implies s.skip(1)[j] != '\n' by {
            assert(s.skip(1)[j] == s[j + 1]);
        }
        if k - 1 < s.skip(1).len() {
            assert(s.skip(1)[k - 1] == s[k]);
        }
        lemma_first_nl_is(s.skip(1), k - 1);
    }
}

/// The lines of a sequence of characters, split on `'\n'`; the separators are
/// not part of any line.
pub open spec fn spec_lines(s: Seq<char>) -> Seq<Seq<char>>
    decreases s.len(),
{
    if s.len() == 0 {
        Seq::empty()
    } else {
        let i = spec_first_nl(s) as int;
        if i >= s.len() {
            seq![s]
        } else {
            seq![s.take(i)] + spec_lines(s.skip(i + 1))
        }
    }
}

/// A line without its trailing carriage return, if it carries one.
pub open spec fn spec_strip_cr(l: Seq<char>) -> Seq<char> {
    if l.len() > 0 && l.last() == '\r' {
        l.drop_last()
    } else {
        l
    }
}

/// The domains held by the raw text of a list: one domain per non-empty line,
/// each line taken without a trailing carriage return.
pub open spec fn spec_domains(text: Seq<char>) -> Set<Seq<char>> {
    spec_lines(text).map_values(|l: Seq<char>| spec_strip_cr(l)).filter(
        |l: Seq<char>| l.len() > 0,
    ).to_set()
}

/// Splitting at a position right after a newline (or at the very start) splits
/// the lines as well.
proof fn lemma_lines_boundary(s: Seq<char>, b: int)
    requires
        0 <= b <= s.len(),
        b == 0 || s[b - 1] == '\n',
    ensures
        spec_lines(s) == spec_lines(s.take(b)) + spec_lines(s.skip(b)),
    decreases s.len(),
{
    if b == 0 {
        assert(s.take(0) =~= Seq::<char>::empty());
        assert(s.skip(0) =~= s);
        assert(spec_lines(s.take(0)) + spec_lines(s.skip(0)) =~= spec_lines(s));
    } else {
        lemma_first_nl(s);
        let i = spec_first_nl(s) as int;
        assert(i <= b - 1);
        let s2 = s.skip(i + 1);
        let b2 = b - i - 1;
        assert(b2 == 0 || s2[b2 - 1] == s[b - 1]);
        lemma_lines_boundary(s2, b2);
        let t = s.take(b);
        assert forall|j: int| 0 <= j < i implies t[j] != '\n' by {}
        assert(t[i] == s[i]);
        lemma_first_nl_is(t, i);
        assert(t.take(i) =~= s.take(i));
        assert(t.skip(i + 1) =~= s2.take(b2));
        assert(s2.skip(b2) =~= s.skip(b));
        assert(spec_lines(s) =~= spec_lines(s.take(b)) + spec_lines(s.skip(b)));
    }
}

/// The lines of a piece of text that holds no newline but ends with one: the
/// one line before the newline.
proof fn lemma_lines_single_terminated(seg: Seq<char>)
    requires
        seg.len() >= 1,
        seg[seg.len() - 1] == '\n',
        forall|k: int| 0 <= k < seg.len() - 1 ==> seg[k] != '\n',
    ensures
        spec_lines(seg) == seq![seg.take(seg.len() - 1)],
{
    lemma_first_nl_is(seg, seg.len() - 1);
    let i = seg.len() - 1;
    assert(seg.skip(i + 1) =~= Seq::<char>::empty());
    assert(spec_lines(seg.skip(i + 1)) == Seq::<Seq<char>>::empty());
    assert(spec_lines(seg) == seq![seg.take(i)] + spec_lines(seg.skip(i + 1)));
    assert(seq![seg.take(i)] + Seq::<Seq<char>>::empty() =~= seq![seg.take(i)]);
}

/// The lines of a non-empty piece of text that holds no newline: the text
/// itself as one line.
proof fn lemma_lines_single_open(seg: Seq<char>)
    requires
        seg.len() >= 1,
        forall|k: int| 0 <= k < seg.len() ==> seg[k] != '\n',
    ensures
        spec_lines(seg) == seq![seg],
{
    lemma_first_nl_is(seg, seg.len() as int);
}

/// Reads the domains out of the raw text of a list: one domain per non-empty
/// line, without a trailing carriage return.
fn parse_domains(text: &str) -> (r: Vec<String>)
    ensures
        r@.map_values(|s: String| s@) == spec_lines(text@).map_values(
            |l: Seq<char>| spec_strip_cr(l),
        ).filter(|l: Seq<char>| l.len() > 0),
{
    let n = text.unicode_len();
    let mut out: Vec<String> = Vec::new();
    let mut start: usize = 0;
    let mut i: usize = 0;
    while i < n
        invariant
            0 <= start <= i <= n,
            n == text@.len(),
            start == 0 || text@[start - 1] == '\n',
            forall|k: int| start <= k < i ==> text@[k] != '\n',
            out@.map_values(|s: String| s@) == spec_lines(text@.take(start as int)).map_values(
                |l: Seq<char>| spec_strip_cr(l),
            ).filter(|l: Seq<char>| l.len() > 0),
        decreases n - i,
    {
        let c = text.get_char(i);
        if c == '\n' {
            // one line is complete: text[start .. i]
            let line = text.substring_char(start, i);
            let llen = i - start;
            proof {
                assert(line@ == text@.subrange(start as int, i as int));
                assert(line@.len() == llen);
            }
            let stripped: &str = if llen > 0 && line.get_char(llen - 1) == '\r' {
                line.substring_char(0, llen - 1)
            } else {
                line
            };
            proof {
                assert(stripped@ =~= spec_strip_cr(line@));
            }
            let slen = stripped.unicode_len();
            let ghost prev_out = out@;
            if slen > 0 {
                out.push(stripped.to_owned());
            }
            proof {
                let st = |l: Seq<char>| spec_strip_cr(l);
                let ne = |l: Seq<char>| l.len() > 0;
                let sv = |s: String| s@;
                let old_prefix = text@.take(start as int);
                let new_prefix = text@.take(i + 1);
                let seg = text@.subrange(start as int, i + 1);
                lemma_lines_boundary(new_prefix, start as int);
                assert(new_prefix.take(start as int) =~= old_prefix);
                assert(new_prefix.skip(start as int) =~= seg);
                assert(seg[seg.len() - 1] == '\n');
                assert forall|k: int| 0 <= k < seg.len() - 1 implies seg[k] != '\n' by {
                    assert(seg[k] == text@[start + k]);
                }
                lemma_lines_single_terminated(seg);
                assert(seg.take(seg.len() - 1) =~= line@);
                assert(spec_lines(seg) == seq![line@]);
                let lold = spec_lines(old_prefix);
                let lnew = spec_lines(new_prefix);
                assert(lnew == lold + seq![line@]);
                assert(lold + seq![line@] =~= lold.push(line@));
                let x = spec_strip_cr(line@);
                assert forall|k: int|
                    0 <= k < lnew.map_values(st).len() implies lnew.map_values(st)[k]
                    == lold.map_values(st).push(x)[k] by {
                    if k < lold.len() {
                        assert(lnew[k] == lold[k]);
                    } else {
                        assert(lnew[k] == line@);
                    }
                }
                assert(lnew.map_values(st) =~= lold.map_values(st).push(x));
                lold.map_values(st).lemma_filter_push(x, ne);
                assert(lnew.map_values(st).filter(ne) == if x.len() > 0 {
                    lold.map_values(st).filter(ne).push(x)
                } else {
                    lold.map_values(st).filter(ne)
                });
                assert(slen == x.len());
                if slen > 0 {
                    assert(out@.map_values(sv) =~= prev_out.map_values(sv).push(x));
                } else {
                    assert(out@.map_values(sv) == prev_out.map_values(sv));
                }
                assert(out@.map_values(sv) == lnew.map_values(st).filter(ne));
            }
            i += 1;
            start = i;
        } else {
            i += 1;
        }
    }
    proof {
        let whole = text@;
        assert(whole.take(n as int) =~= whole);
        lemma_lines_boundary(whole, start as int);
        if start < n {
            let seg = whole.skip(start as int);
            assert forall|k: int| 0 <= k < seg.len() implies seg[k] != '\n' by {
                assert(seg[k] == text@[start + k]);
            }
            lemma_lines_single_open(seg);
        } else {
            assert(whole.skip(start as int) =~= Seq::<char>::empty());
        }
    }
    if start < n {
        // a last line without a trailing newline
        let line = text.substring_char(start, n);
        let llen = n - start;
        let stripped: &str = if line.get_char(llen - 1) == '\r' {
            line.substring_char(0, llen - 1)
        } else {
            line
        };
        proof {
            assert(line@ == text@.subrange(start as int, n as int));
            assert(stripped@ =~= spec_strip_cr(line@));
        }
        let slen = stripped.unicode_len();
        let ghost prev_out = out@;
        if slen > 0 {
            out.push(stripped.to_owned());
        }
        proof {
            let st = |l: Seq<char>| spec_strip_cr(l);
            let ne = |l: Seq<char>| l.len() > 0;
            let sv = |s: String| s@;
            let old_prefix = text@.take(start as int);
            assert(line@ =~= text@.skip(start as int));
            assert(spec_lines(text@.skip(start as int)) == seq![line@]);
            let lold = spec_lines(old_prefix);
            let lnew = spec_lines(text@);
            assert(lnew == lold + seq![line@]);
            assert(lold + seq![line@] =~= lold.push(line@));
            let x = spec_strip_cr(line@);
            assert forall|k: int|
                0 <= k < lnew.map_values(st).len() implies lnew.map_values(st)[k]
                == lold.map_values(st).push(x)[k] by {
                if k < lold.len() {
                    assert(lnew[k] == lold[k]);
                } else {
                    assert(lnew[k] == line@);
                }
            }
            assert(lnew.map_values(st) =~= lold.map_values(st).push(x));
            lold.map_values(st).lemma_filter_push(x, ne);
            assert(slen == x.len());
            if slen > 0 {
                assert(out@.map_values(sv) =~= prev_out.map_values(sv).push(x));
            } else {
                assert(out@.map_values(sv) == prev_out.map_values(sv));
            }
            assert(out@.map_values(sv) == lnew.map_values(st).filter(ne));
        }
    } else {
        proof {
            assert(spec_lines(text@) =~= spec_lines(text@.take(start as int)));
        }
    }
    out
}

/// Whether a list of strings holds a given string, compared by contents.
fn list_contains(list: &Vec<String>, s: &String) -> (r: bool)
    ensures
        r == list@.map_values(|x: String| x@).to_set().contains(s@),
{
    let ghost mapped = list@.map_values(|x: String| x@);
    let mut i: usize = 0;
    while i < list.len()
        invariant
            i <= list.len(),
            mapped == list@.map_values(|x: String| x@),
            forall|k: int| 0 <= k < i ==> mapped[k] != s@,
        decreases list.len() - i,
    {
        if list[i] == *s {
            proof {
                assert(mapped[i as int] == s@);
                assert(mapped.contains(s@));
            }
            return true;
        }
        i += 1;
    }
    proof {
        assert(!mapped.contains(s@));
    }
    false
}

/// Filter that uses a whitelist to decide whether a server may pass: it keeps
/// exactly the servers whose domain appears on the list.
#[derive(Debug)]
pub struct WhiteListFilter {
    whitelist: Vec<String>,
}

impl WhiteListFilter {
    /// The set of domains this filter allows.
    pub closed spec fn spec_list(&self) -> Set<Seq<char>> {
        self.whitelist@.map_values(|s: String| s@).to_set()
    }

    /// Reads a whitelist from the raw text of a domain list.
    pub fn from_text(text: &str) -> (r: Self)
        ensures
            r.spec_list() == spec_domains(text@),
    {
        WhiteListFilter { whitelist: parse_domains(text) }
    }
}

impl Default for WhiteListFilter {
    /// The default whitelist is empty.
    fn default() -> (r: Self)
        ensures
            r.spec_list() == Set::<Seq<char>>::empty(),
    {
        let r = WhiteListFilter { whitelist: Vec::new() };
        proof {
            assert(r.spec_list() =~= Set::<Seq<char>>::empty());
        }
        r
    }
}

impl Filter for WhiteListFilter {
    open spec fn spec_accepts(&self, server: ServerView) -> bool {
        self.spec_list().contains(server.domain)
    }

    fn filter(&self, server: &Server) -> (r: bool) {
        list_contains(&self.whitelist, &server.domain)
    }
}

/// Filter that uses a blacklist to decide whether a server may pass: it keeps
/// exactly the servers whose domain does not appear on the list.
#[derive(Debug)]
pub struct BlackListFilter {
    blacklist: Vec<String>,
}

impl BlackListFilter {
    /// The set of domains this filter rejects.
    pub closed spec fn spec_list(&self) -> Set<Seq<char>> {
        self.blacklist@.map_values(|s: String| s@).to_set()
    }

    /// Reads a blacklist from the raw text of a domain list.
    pub fn from_text(text: &str) -> (r: Self)
        ensures
            r.spec_list() == spec_domains(text@),
    {
        BlackListFilter { blacklist: parse_domains(text) }
    }
}

impl Default for BlackListFilter {
    /// The default blacklist is empty.
    fn default() -> (r: Self)
        ensures
            r.spec_list() == Set::<Seq<char>>::empty(),
    {
        let r = BlackListFilter { blacklist: Vec::new() };
        proof {
            assert(r.spec_list() =~= Set::<Seq<char>>::empty());
        }
        r
    }
}

impl Filter for BlackListFilter {
    open spec fn spec_accepts(&self, server: ServerView) -> bool {
        !self.spec_list().contains(server.domain)
    }

    fn filter(&self, server: &Server) -> (r: bool) {
        !list_contains(&self.blacklist, &server.domain)
    }
}

} // verus!
