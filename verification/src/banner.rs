//! Service identification from a raw banner: blank lines are removed, then
//! the remaining lines are scanned for an identity — a short greeting line
//! taken verbatim, or the value of a `Server:` header — with a fixed
//! placeholder when nothing is found.

use vstd::prelude::*;
use crate::text::{
    find_char, join_char, lemma_split_char_min_len, split_char, split_str, str_contains_char,
    str_find_char,
};

verus! {

/// The characters `char::is_whitespace` accepts.
pub open spec fn is_wsp(c: char) -> bool {
    c == ' ' || c == '\t' || c == '\n' || c == '\r' || c == '\u{000B}' || c == '\u{000C}'
        || c == '\u{0085}' || c == '\u{00A0}' || c == '\u{1680}' || c == '\u{2000}'
        || c == '\u{2001}' || c == '\u{2002}' || c == '\u{2003}' || c == '\u{2004}'
        || c == '\u{2005}' || c == '\u{2006}' || c == '\u{2007}' || c == '\u{2008}'
        || c == '\u{2009}' || c == '\u{200A}' || c == '\u{2028}' || c == '\u{2029}'
        || c == '\u{202F}' || c == '\u{205F}' || c == '\u{3000}'
}

/// A line is blank when every character is whitespace.
pub open spec fn is_blank(l: Seq<char>) -> bool {
    forall|i: int| 0 <= i < l.len() ==> is_wsp(#[trigger] l[i])
}

/// A carriage return at the very end of a line is dropped.
pub open spec fn strip_cr(l: Seq<char>) -> Seq<char> {
    if l.len() > 0 && l.last() == '\r' {
        l.drop_last()
    } else {
        l
    }
}

/// The lines of `s` as `str::lines` yields them: split on `\n`, a final
/// empty piece dropped, and a `\r` stripped from the end of each
/// newline-terminated line.
pub open spec fn lines_of(s: Seq<char>) -> Seq<Seq<char>> {
    let ps = split_char(s, '\n');
    let init = ps.drop_last().map_values(|p: Seq<char>| strip_cr(p));
    if ps.last().len() == 0 {
        init
    } else {
        init.push(ps.last())
    }
}

/// The lines that are not blank, in order.
pub open spec fn nonblank_lines(ls: Seq<Seq<char>>) -> Seq<Seq<char>>
    decreases ls.len(),
{
    if ls.len() == 0 {
        Seq::<Seq<char>>::empty()
    } else if is_blank(ls.last()) {
        nonblank_lines(ls.drop_last())
    } else {
        nonblank_lines(ls.drop_last()).push(ls.last())
    }
}

/// The text with its blank lines removed and the rest joined by `\n`.
pub open spec fn cleaned(s: Seq<char>) -> Seq<char> {
    join_char(nonblank_lines(lines_of(s)), '\n')
}

pub open spec fn trim_start_spec(s: Seq<char>) -> Seq<char>
    decreases s.len(),
{
    if s.len() > 0 && is_wsp(s[0]) {
        trim_start_spec(s.drop_first())
    } else {
        s
    }
}

pub open spec fn trim_end_spec(s: Seq<char>) -> Seq<char>
    decreases s.len(),
{
    if s.len() > 0 && is_wsp(s.last()) {
        trim_end_spec(s.drop_last())
    } else {
        s
    }
}

/// `s` without leading and trailing whitespace, as `str::trim` yields it.
pub open spec fn trim_spec(s: Seq<char>) -> Seq<char> {
    trim_end_spec(trim_start_spec(s))
}

/// The seven characters starting at `i` spell `server:`, ASCII
/// case-insensitively.
pub open spec fn server_colon_at(l: Seq<char>, i: int) -> bool {
    &&& 0 <= i
    &&& i + 7 <= l.len()
    &&& (l[i] == 's' || l[i] == 'S')
    &&& (l[i + 1] == 'e' || l[i + 1] == 'E')
    &&& (l[i + 2] == 'r' || l[i + 2] == 'R')
    &&& (l[i + 3] == 'v' || l[i + 3] == 'V')
    &&& (l[i + 4] == 'e' || l[i + 4] == 'E')
    &&& (l[i + 5] == 'r' || l[i + 5] == 'R')
    &&& l[i + 6] == ':'
}

/// Whether the line mentions `server:`, case-insensitively.
pub open spec fn has_server_colon(l: Seq<char>) -> bool {
    exists|i: int| server_colon_at(l, i)
}

/// One pass over the cleaned lines, carrying the identity found so far.
/// A line starting with a null byte stops the scan; a line without a colon
/// is taken verbatim when the raw banner had at most two lines; otherwise
/// the first line mentioning `server:` case-insensitively yields the text
/// after its first colon, trimmed, and the scan stops there.
pub open spec fn server_scan(
    lines: Seq<Seq<char>>,
    few: bool,
    found: Option<Seq<char>>,
) -> Option<Seq<char>>
    decreases lines.len(),
{
    if lines.len() == 0 {
        found
    } else {
        let l = lines[0];
        if l.len() > 0 && l[0] == '\0' {
            found
        } else if !l.contains(':') && few {
            server_scan(lines.drop_first(), few, Some(l))
        } else if !has_server_colon(l) {
            server_scan(lines.drop_first(), few, found)
        } else {
            Some(trim_spec(l.skip(find_char(l, ':') + 1)))
        }
    }
}

/// The service identity derived from a raw banner, or the fixed placeholder.
pub open spec fn parse_server_spec(banner: Seq<char>) -> Seq<char> {
    match server_scan(lines_of(cleaned(banner)), lines_of(banner).len() <= 2, None) {
        Some(v) => v,
        None => "Service info not available."@,
    }
}

pub open spec fn opt_view(o: Option<String>) -> Option<Seq<char>> {
    match o {
        Some(s) => Some(s@),
        None => None,
    }
}

/// Whether `c` is whitespace, as `char::is_whitespace` decides it.
pub fn char_is_whitespace(c: char) -> (r: bool)
    ensures
        r == is_wsp(c),
{
    match c {
        ' ' | '\t' | '\n' | '\r' | '\u{000B}' | '\u{000C}' | '\u{0085}' | '\u{00A0}'
            | '\u{1680}' | '\u{2000}' | '\u{2001}' | '\u{2002}' | '\u{2003}' | '\u{2004}'
            | '\u{2005}' | '\u{2006}' | '\u{2007}' | '\u{2008}' | '\u{2009}' | '\u{200A}'
            | '\u{2028}' | '\u{2029}' | '\u{202F}' | '\u{205F}' | '\u{3000}' => true,
        _ => false,
    }
}

fn wsp_at(s: &str, i: usize) -> (r: bool)
    requires
        i < s@.len(),
    ensures
        r == is_wsp(s@[i as int]),
{
    char_is_whitespace(s.get_char(i))
}

/// Whether every character of `s` is whitespace.
pub fn is_blank_str(s: &str) -> (r: bool)
    ensures
        r == is_blank(s@),
{
    let n = s.unicode_len();
    let mut i: usize = 0;
    while i < n
        invariant
            n == s@.len(),
            i <= n,
            forall|j: int| 0 <= j < i ==> is_wsp(#[trigger] s@[j]),
        decreases n - i,
    {
        if !wsp_at(s, i) {
            return false;
        }
        i = i + 1;
    }
    true
}

fn strip_cr_str(s: &str) -> (r: String)
    ensures
        r@ == strip_cr(s@),
{
    let n = s.unicode_len();
    if n > 0 && s.get_char(n - 1) == '\r' {
        proof {
            assert(s@.subrange(0, n - 1) =~= s@.drop_last());
        }
        String::from_str(s.substring_char(0, n - 1))
    } else {
        String::from_str(s)
    }
}

/// The lines of `s`, as `str::lines` yields them.
pub fn split_lines(s: &str) -> (r: Vec<String>)
    ensures
        r@.len() == lines_of(s@).len(),
        forall|i: int| 0 <= i < r@.len() ==> r@[i]@ == lines_of(s@)[i],
{
    let mut parts = split_str(s, '\n');
    proof {
        lemma_split_char_min_len(s@, '\n');
    }
    let last = match parts.pop() {
        Some(p) => p,
        None => {
            proof {
                assert(false);
            }
            String::new()
        },
    };
    let ghost ps = split_char(s@, '\n');
    let ghost init = ps.drop_last().map_values(|p: Seq<char>| strip_cr(p));
    proof {
        assert(parts@.len() == ps.len() - 1);
        assert(forall|j: int| 0 <= j < parts@.len() ==> parts@[j]@ == ps[j]);
        assert(last@ == ps.last());
    }
    let mut out: Vec<String> = Vec::new();
    let mut i: usize = 0;
    while i < parts.len()
        invariant
            ps == split_char(s@, '\n'),
            init == ps.drop_last().map_values(|p: Seq<char>| strip_cr(p)),
            parts@.len() == ps.len() - 1,
            forall|j: int| 0 <= j < parts@.len() ==> parts@[j]@ == ps[j],
            i <= parts@.len(),
            out@.len() == i,
            forall|j: int| 0 <= j < i ==> out@[j]@ == init[j],
        decreases parts@.len() - i,
    {
        let piece = strip_cr_str(parts[i].as_str());
        out.push(piece);
        i = i + 1;
    }
    if last.unicode_len() != 0 {
        out.push(last);
        proof {
            assert(lines_of(s@) == init.push(ps.last()));
            assert(out@.len() == lines_of(s@).len());
        }
    } else {
        proof {
            assert(lines_of(s@) == init);
        }
    }
    out
}

/// Removes every blank line of `text` and joins what remains with `\n`.
pub fn remove_blank_lines(text: &str) -> (r: String)
    ensures
        r@ == cleaned(text@),
{
    let lines = split_lines(text);
    let ghost lv = lines_of(text@);
    let mut out = String::new();
    let mut any = false;
    let mut i: usize = 0;
    while i < lines.len()
        invariant
            lv == lines_of(text@),
            lines@.len() == lv.len(),
            forall|j: int| 0 <= j < lv.len() ==> lines@[j]@ == lv[j],
            i <= lv.len(),
            out@ == join_char(nonblank_lines(lv.take(i as int)), '\n'),
            any == (nonblank_lines(lv.take(i as int)).len() > 0),
        decreases lv.len() - i,
    {
        proof {
            assert(lv.take(i + 1).drop_last() =~= lv.take(i as int));
            assert(lv.take(i + 1).last() == lv[i as int]);
        }
        let line = &lines[i];
        if !is_blank_str(line.as_str()) {
            let ghost nb = nonblank_lines(lv.take(i as int));
            proof {
                assert(nonblank_lines(lv.take(i + 1)) == nb.push(lv[i as int]));
                reveal_strlit("\n");
            }
            if any {
                out.append("\n");
            }
            out.append(line.as_str());
            any = true;
            proof {
                let nb2 = nb.push(lv[i as int]);
                if nb.len() == 0 {
                    assert(join_char(nb2, '\n') == lv[i as int]);
                    assert(out@ =~= lv[i as int]);
                } else {
                    assert(nb2.drop_last() =~= nb);
                    assert(join_char(nb2, '\n') == join_char(nb, '\n').push('\n') + lv[i as int]);
                    assert(out@ =~= join_char(nb, '\n').push('\n') + lv[i as int]);
                }
            }
        } else {
            proof {
                assert(nonblank_lines(lv.take(i + 1)) == nonblank_lines(lv.take(i as int)));
            }
        }
        i = i + 1;
    }
    proof {
        assert(lv.take(lv.len() as int) =~= lv);
    }
    out
}

/// Whether the line mentions `server:`, ASCII case-insensitively.
pub fn line_has_server_colon(l: &str) -> (r: bool)
    ensures
        r == has_server_colon(l@),
{
    let n = l.unicode_len();
    if n < 7 {
        proof {
            if has_server_colon(l@) {
                let w = choose|w: int| server_colon_at(l@, w);
                assert(false);
            }
        }
        return false;
    }
    let mut i: usize = 0;
    while i <= n - 7
        invariant
            n == l@.len(),
            7 <= n,
            i <= n - 6,
            forall|k: int| 0 <= k < i ==> !server_colon_at(l@, k),
        decreases n - i,
    {
        let c0 = l.get_char(i);
        let c1 = l.get_char(i + 1);
        let c2 = l.get_char(i + 2);
        let c3 = l.get_char(i + 3);
        let c4 = l.get_char(i + 4);
        let c5 = l.get_char(i + 5);
        let c6 = l.get_char(i + 6);
        if (c0 == 's' || c0 == 'S') && (c1 == 'e' || c1 == 'E') && (c2 == 'r' || c2 == 'R') && (c3
            == 'v' || c3 == 'V') && (c4 == 'e' || c4 == 'E') && (c5 == 'r' || c5 == 'R') && c6
            == ':' {
            proof {
                assert(server_colon_at(l@, i as int));
            }
            return true;
        }
        i = i + 1;
    }
    proof {
        if has_server_colon(l@) {
            let w = choose|w: int| server_colon_at(l@, w);
            assert(w < i);
            assert(false);
        }
    }
    false
}

/// `s` without leading and trailing whitespace.
pub fn trim_str(s: &str) -> (r: String)
    ensures
        r@ == trim_spec(s@),
{
    let n = s.unicode_len();
    let mut lo: usize = 0;
    proof {
        assert(s@.skip(0) =~= s@);
    }
    while lo < n && wsp_at(s, lo)
        invariant
            n == s@.len(),
            lo <= n,
            trim_start_spec(s@) == trim_start_spec(s@.skip(lo as int)),
        decreases n - lo,
    {
        proof {
            assert(s@.skip(lo as int).drop_first() =~= s@.skip(lo + 1));
            assert(s@.skip(lo as int)[0] == s@[lo as int]);
        }
        lo = lo + 1;
    }
    proof {
        assert(trim_start_spec(s@.skip(lo as int)) == s@.skip(lo as int));
    }
    let ghost t = s@.skip(lo as int);
    let mut hi: usize = n;
    proof {
        assert(t.take(n - lo) =~= t);
    }
    while hi > lo && wsp_at(s, hi - 1)
        invariant
            n == s@.len(),
            t == s@.skip(lo as int),
            trim_start_spec(s@) == t,
            lo <= hi <= n,
            trim_end_spec(t) == trim_end_spec(t.take(hi - lo)),
        decreases hi,
    {
        proof {
            assert(t.take(hi - lo).drop_last() =~= t.take(hi - 1 - lo));
            assert(t.take(hi - lo).last() == s@[hi - 1]);
        }
        hi = hi - 1;
    }
    proof {
        assert(trim_end_spec(t.take(hi - lo)) == t.take(hi - lo));
        assert(s@.subrange(lo as int, hi as int) =~= t.take(hi - lo));
    }
    String::from_str(s.substring_char(lo, hi))
}

/// Derives a service identity from a raw banner.  A response of at most two
/// raw lines whose cleaned no-colon lines are taken verbatim; else the
/// first line mentioning `server:` case-insensitively yields the text after
/// its first colon, trimmed; else the fixed placeholder.
pub fn parse_server(banner: &str) -> (r: String)
    ensures
        r@ == parse_server_spec(banner@),
{
    let binding = remove_blank_lines(banner);
    let lines = split_lines(binding.as_str());
    let raw_lines = split_lines(banner);
    let few = raw_lines.len() <= 2;
    let ghost lv = lines_of(cleaned(banner@));
    let mut found: Option<String> = None;
    let mut i: usize = 0;
    proof {
        assert(lv.skip(0) =~= lv);
    }
    while i < lines.len()
        invariant
            lv == lines_of(cleaned(banner@)),
            few == (lines_of(banner@).len() <= 2),
            lines@.len() == lv.len(),
            forall|j: int| 0 <= j < lv.len() ==> lines@[j]@ == lv[j],
            i <= lv.len(),
            server_scan(lv, few, None) == server_scan(lv.skip(i as int), few, opt_view(found)),
        decreases lv.len() - i,
    {
        proof {
            assert(lv.skip(i as int).drop_first() =~= lv.skip(i + 1));
            assert(lv.skip(i as int)[0] == lv[i as int]);
        }
        let line = &lines[i];
        let ln = line.as_str().unicode_len();
        if ln > 0 && line.as_str().get_char(0) == '\0' {
            proof {
                assert(server_scan(lv.skip(i as int), few, opt_view(found)) == opt_view(found));
            }
            return match found {
                Some(s) => s,
                None => String::from_str("Service info not available."),
            };
        }
        let has_colon = str_contains_char(line.as_str(), ':');
        if !has_colon && few {
            found = Some(line.clone());
        } else if !line_has_server_colon(line.as_str()) {
            // scanning continues with what was found so far
        } else {
            let l = line.as_str();
            let k = match str_find_char(l, ':') {
                Some(k) => {
                    proof {
                        crate::text::lemma_find_char_in_range(l@, ':');
                    }
                    k
                },
                None => {
                    proof {
                        let w = choose|w: int| server_colon_at(l@, w);
                        assert(l@[w + 6] == ':');
                        assert(l@.contains(':'));
                        assert(false);
                    }
                    0
                },
            };
            let value = trim_str(l.substring_char(k + 1, ln));
            proof {
                assert(l@.subrange(k + 1, ln as int) =~= l@.skip(k + 1));
                assert(server_scan(lv.skip(i as int), few, opt_view(found)) == Some(
                    trim_spec(lv[i as int].skip(k + 1)),
                ));
            }
            return value;
        }
        i = i + 1;
    }
    proof {
        assert(lv.skip(lv.len() as int) =~= Seq::<Seq<char>>::empty());
        assert(server_scan(lv, few, None) == opt_view(found));
    }
    match found {
        Some(s) => s,
        None => String::from_str("Service info not available."),
    }
}

} // verus!
