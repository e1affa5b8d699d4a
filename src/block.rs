use vstd::prelude::*;

use crate::chars::{chars_of, is_white, string_of, white};
use crate::literal::{decoded_as, DecodeError};

verus! {

/// Index of the first line feed in `s`, or its length when there is none.
pub open spec fn first_nl(s: Seq<char>) -> int
    decreases s.len(),
{
    if s.len() == 0 || s[0] == '\n' {
        0
    } else {
        1 + first_nl(s.drop_first())
    }
}

/// A line without its carriage return, if it ends in one.
pub open spec fn strip_cr(l: Seq<char>) -> Seq<char> {
    if l.len() > 0 && l.last() == '\r' {
        l.drop_last()
    } else {
        l
    }
}

/// The lines of `s`, split at `\n` or `\r\n`; a final line ending starts no new line.
pub open spec fn lines(s: Seq<char>) -> Seq<Seq<char>>
    decreases s.len(),
{
    let k = first_nl(s);
    if s.len() == 0 {
        Seq::empty()
    } else if 0 <= k < s.len() {
        seq![strip_cr(s.subrange(0, k))] + lines(s.subrange(k + 1, s.len() as int))
    } else {
        seq![strip_cr(s)]
    }
}

/// Number of whitespace characters that `s` starts with.
pub open spec fn lead_ws(s: Seq<char>) -> nat
    decreases s.len(),
{
    if s.len() > 0 && is_white(s[0]) {
        1 + lead_ws(s.drop_first())
    } else {
        0
    }
}

/// Number of whitespace characters that `s` ends with.
pub open spec fn trail_ws(s: Seq<char>) -> nat
    decreases s.len(),
{
    if s.len() > 0 && is_white(s.last()) {
        1 + trail_ws(s.drop_last())
    } else {
        0
    }
}

/// `s` without whitespace at either end.
pub open spec fn trim(s: Seq<char>) -> Seq<char> {
    let u = s.subrange(lead_ws(s) as int, s.len() as int);
    u.subrange(0, u.len() - trail_ws(u))
}

/// Whether `s` holds whitespace only.
pub open spec fn is_blank(s: Seq<char>) -> bool {
    lead_ws(s) == s.len()
}

/// The smallest indentation among the lines that hold more than whitespace.
pub open spec fn min_indent(ls: Seq<Seq<char>>) -> Option<nat>
    decreases ls.len(),
{
    if ls.len() == 0 {
        None
    } else {
        let rest = min_indent(ls.drop_last());
        let l = ls.last();
        if is_blank(l) {
            rest
        } else {
            match rest {
                Some(m) => Some(if lead_ws(l) < m { lead_ws(l) } else { m }),
                None => Some(lead_ws(l)),
            }
        }
    }
}

/// `s` with each escaped triple quote `\"""` read as `"""`.
pub open spec fn unescape_triple(s: Seq<char>) -> Seq<char>
    decreases s.len(),
{
    if s.len() == 0 {
        s
    } else if s.len() >= 4 && s[0] == '\\' && s[1] == '"' && s[2] == '"' && s[3] == '"' {
        seq!['"', '"', '"'] + unescape_triple(s.subrange(4, s.len() as int))
    } else {
        seq![s[0]] + unescape_triple(s.subrange(1, s.len() as int))
    }
}

/// A line after the first, with `ind` characters of indentation removed.
pub open spec fn dedented(l: Seq<char>, ind: nat) -> Seq<char> {
    if l.len() > ind {
        unescape_triple(l.subrange(ind as int, l.len() as int))
    } else {
        Seq::empty()
    }
}

/// Each line followed by a line feed.
pub open spec fn join_lines(ls: Seq<Seq<char>>) -> Seq<char>
    decreases ls.len(),
{
    if ls.len() == 0 {
        Seq::empty()
    } else {
        join_lines(ls.drop_last()) + ls.last().push('\n')
    }
}

/// `ls` without the blank lines at its end.
pub open spec fn drop_blank_tail(ls: Seq<Seq<char>>) -> Seq<Seq<char>>
    decreases ls.len(),
{
    if ls.len() > 0 && is_blank(ls.last()) {
        drop_blank_tail(ls.drop_last())
    } else {
        ls
    }
}

/// The indentation common to the lines after the first that hold more than whitespace.
pub open spec fn common_indent(ls: Seq<Seq<char>>) -> nat {
    match min_indent(ls.subrange(1, ls.len() as int)) {
        Some(m) => m,
        None => 0,
    }
}

/// The lines of a block string's value: the first line trimmed, where that
/// leaves anything, then each later line with the common indentation removed.
pub open spec fn emitted(ls: Seq<Seq<char>>) -> Seq<Seq<char>> {
    let t = trim(ls[0]);
    (if t.len() > 0 { seq![t] } else { Seq::empty() }) + Seq::new(
        (ls.len() - 1) as nat,
        |i: int| dedented(ls[i + 1], common_indent(ls)),
    )
}

/// The value of a block string from the text between its delimiters: the
/// emitted lines up to the last one that is not blank, each ended by a line feed.
pub open spec fn block_value(inner: Seq<char>) -> Seq<char> {
    let ls = lines(inner);
    if ls.len() == 0 {
        Seq::empty()
    } else {
        join_lines(drop_blank_tail(emitted(ls)))
    }
}

/// The characters of each of `v`'s lines.
pub open spec fn lines_view(v: Seq<Vec<char>>) -> Seq<Seq<char>> {
    Seq::new(v.len(), |i: int| v[i]@)
}

/// Appends all of `v`.
fn push_all(out: &mut Vec<char>, v: &Vec<char>)
    ensures
        final(out)@ == old(out)@ + v@,
{
    let ghost base = old(out)@;
    let mut i: usize = 0;
    while i < v.len()
        invariant
            i <= v.len(),
            out@ == base + v@.subrange(0, i as int),
        decreases v.len() - i,
    {
        out.push(v[i]);
        assert(out@ == base + v@.subrange(0, i + 1));
        i += 1;
    }
    assert(v@.subrange(0, i as int) == v@);
}

/// Whether `s` starts and ends with a triple quote, the two not overlapping.
pub open spec fn is_block_quoted(s: Seq<char>) -> bool {
    &&& s.len() >= 6
    &&& s[0] == '"' && s[1] == '"' && s[2] == '"'
    &&& s[s.len() - 3] == '"' && s[s.len() - 2] == '"' && s[s.len() - 1] == '"'
}

/// The decoded value of a block string literal, delimiters included in `s`.
pub open spec fn block_unquoted(s: Seq<char>) -> Result<Seq<char>, DecodeError> {
    if is_block_quoted(s) {
        Ok(block_value(s.subrange(3, s.len() - 3)))
    } else {
        Err(DecodeError::Unquoted)
    }
}

proof fn lemma_first_nl_at(t: Seq<char>, k: int)
    requires
        0 <= k < t.len(),
        t[k] == '\n',
        forall|j: int| 0 <= j < k ==> t[j] != '\n',
    ensures
        first_nl(t) == k,
    decreases k,
{
    if k > 0 {
        assert(t[0] != '\n');
        let u = t.drop_first();
        assert forall|j: int| 0 <= j < k - 1 implies u[j] != '\n' by {
            assert(u[j] == t[j + 1]);
        }
        lemma_first_nl_at(u, k - 1);
    }
}

proof fn lemma_first_nl_none(t: Seq<char>)
    requires
        forall|j: int| 0 <= j < t.len() ==> t[j] != '\n',
    ensures
        first_nl(t) == t.len(),
    decreases t.len(),
{
    if t.len() > 0 {
        let u = t.drop_first();
        assert forall|j: int| 0 <= j < u.len() implies u[j] != '\n' by {
            assert(u[j] == t[j + 1]);
        }
        lemma_first_nl_none(u);
    }
}

/// The lines of the text between its delimiters.
pub open spec fn ranges_model(cs: Seq<char>, rs: Seq<(usize, usize)>) -> Seq<Seq<char>> {
    Seq::new(rs.len(), |k: int| cs.subrange(rs[k].0 as int, rs[k].1 as int))
}

/// The ranges of `cs[a..b]` that hold its lines.
fn line_ranges(cs: &Vec<char>, a: usize, b: usize) -> (r: Vec<(usize, usize)>)
    requires
        a <= b <= cs.len(),
    ensures
        forall|k: int| 0 <= k < r@.len() ==> a <= #[trigger] r@[k].0 <= r@[k].1 <= b,
        ranges_model(cs@, r@) == lines(cs@.subrange(a as int, b as int)),
{
    let mut out: Vec<(usize, usize)> = Vec::new();
    let mut start: usize = a;
    let mut i: usize = a;
    while i < b
        invariant
            a <= start <= i <= b <= cs.len(),
            forall|j: int| start <= j < i ==> cs@[j] != '\n',
            forall|k: int| 0 <= k < out@.len() ==> a <= #[trigger] out@[k].0 <= out@[k].1 <= b,
            lines(cs@.subrange(a as int, b as int)) == ranges_model(cs@, out@) + lines(
                cs@.subrange(start as int, b as int),
            ),
        decreases b - i,
    {
        if cs[i] == '\n' {
            let ghost t = cs@.subrange(start as int, b as int);
            let ghost old_out = out@;
            proof {
                lemma_first_nl_at(t, i - start);
                assert(t.subrange(0, i - start) == cs@.subrange(start as int, i as int));
                assert(t.subrange(i - start + 1, t.len() as int) == cs@.subrange(
                    i + 1,
                    b as int,
                ));
            }
            let e = if i > start && cs[i - 1] == '\r' {
                i - 1
            } else {
                i
            };
            assert(strip_cr(cs@.subrange(start as int, i as int)) == cs@.subrange(
                start as int,
                e as int,
            ));
            out.push((start, e));
            assert(ranges_model(cs@, out@) == ranges_model(cs@, old_out) + seq![
                cs@.subrange(start as int, e as int),
            ]);
            start = i + 1;
        }
        i += 1;
    }
    let ghost t = cs@.subrange(start as int, b as int);
    if start < b {
        proof {
            lemma_first_nl_none(t);
        }
        let ghost old_out = out@;
        let e = if cs[b - 1] == '\r' {
            b - 1
        } else {
            b
        };
        assert(strip_cr(t) == cs@.subrange(start as int, e as int));
        out.push((start, e));
        assert(ranges_model(cs@, out@) == ranges_model(cs@, old_out) + seq![
            cs@.subrange(start as int, e as int),
        ]);
    } else {
        assert(ranges_model(cs@, out@) + lines(t) == ranges_model(cs@, out@));
    }
    out
}

/// The end of the whitespace that `cs[a..b]` starts with.
fn lead_ws_end(cs: &Vec<char>, a: usize, b: usize) -> (r: usize)
    requires
        a <= b <= cs.len(),
    ensures
        a <= r <= b,
        r - a == lead_ws(cs@.subrange(a as int, b as int)),
{
    let mut i: usize = a;
    loop
        invariant
            a <= i <= b <= cs.len(),
            lead_ws(cs@.subrange(a as int, b as int)) == (i - a) + lead_ws(
                cs@.subrange(i as int, b as int),
            ),
        decreases b - i,
    {
        if i == b || !white(cs[i]) {
            return i;
        }
        assert(cs@.subrange(i as int, b as int).drop_first() == cs@.subrange(i + 1, b as int));
        i += 1;
    }
}

/// The start of the whitespace that `cs[a..b]` ends with.
fn trail_ws_start(cs: &Vec<char>, a: usize, b: usize) -> (r: usize)
    requires
        a <= b <= cs.len(),
    ensures
        a <= r <= b,
        b - r == trail_ws(cs@.subrange(a as int, b as int)),
{
    let mut j: usize = b;
    loop
        invariant
            a <= j <= b <= cs.len(),
            trail_ws(cs@.subrange(a as int, b as int)) == (b - j) + trail_ws(
                cs@.subrange(a as int, j as int),
            ),
        decreases j - a,
    {
        if j == a || !white(cs[j - 1]) {
            return j;
        }
        assert(cs@.subrange(a as int, j as int).drop_last() == cs@.subrange(a as int, j - 1));
        j -= 1;
    }
}

/// Appends `cs[a..b]` with each `\"""` read as `"""`.
fn push_unescaped(out: &mut Vec<char>, cs: &Vec<char>, a: usize, b: usize)
    requires
        a <= b <= cs.len(),
    ensures
        final(out)@ == old(out)@ + unescape_triple(cs@.subrange(a as int, b as int)),
{
    let ghost base = old(out)@;
    let mut i: usize = a;
    while i < b
        invariant
            a <= i <= b <= cs.len(),
            out@ + unescape_triple(cs@.subrange(i as int, b as int)) == base + unescape_triple(
                cs@.subrange(a as int, b as int),
            ),
        decreases b - i,
    {
        let ghost t = cs@.subrange(i as int, b as int);
        let ghost o = out@;
        if b - i >= 4 && cs[i] == '\\' && cs[i + 1] == '"' && cs[i + 2] == '"' && cs[i + 3] == '"' {
            assert(t.subrange(4, t.len() as int) == cs@.subrange(i + 4, b as int));
            out.push('"');
            out.push('"');
            out.push('"');
            assert(out@ == o + seq!['"', '"', '"']);
            assert(o + unescape_triple(t) == out@ + unescape_triple(
                cs@.subrange(i + 4, b as int),
            ));
            i += 4;
        } else {
            let c = cs[i];
            assert(t.subrange(1, t.len() as int) == cs@.subrange(i + 1, b as int));
            out.push(c);
            assert(out@ == o + seq![c]);
            assert(o + unescape_triple(t) == out@ + unescape_triple(
                cs@.subrange(i + 1, b as int),
            ));
            i += 1;
        }
    }
    assert(cs@.subrange(i as int, b as int).len() == 0);
    assert(out@ + Seq::<char>::empty() == out@);
}

/// Decodes a block string literal (triple quotes included): common indentation
/// removed, the first line trimmed, every blank line at the end dropped.
pub fn unquote_block_string(s: &str) -> (r: Result<String, DecodeError>)
    ensures
        decoded_as(r, block_unquoted(s@)),
{
    let cs = chars_of(s);
    let n = cs.len();
    if n < 6 || cs[0] != '"' || cs[1] != '"' || cs[2] != '"' || cs[n - 3] != '"' || cs[n - 2]
        != '"' || cs[n - 1] != '"' {
        return Err(DecodeError::Unquoted);
    }
    let ghost inner = cs@.subrange(3, n - 3);
    let rs = line_ranges(&cs, 3, n - 3);
    let ghost ls = lines(inner);
    assert(ranges_model(cs@, rs@) == ls);
    if rs.len() == 0 {
        let out: Vec<char> = Vec::new();
        return Ok(string_of(&out));
    }
    assert(ls[0] == cs@.subrange(rs@[0].0 as int, rs@[0].1 as int));
    let (a0, b0) = rs[0];
    let l = lead_ws_end(&cs, a0, b0);
    let t = trail_ws_start(&cs, l, b0);
    let mut h: Vec<char> = Vec::new();
    let mut k: usize = l;
    while k < t
        invariant
            l <= k <= t <= cs.len(),
            h@ == cs@.subrange(l as int, k as int),
        decreases t - k,
    {
        h.push(cs[k]);
        assert(h@ == cs@.subrange(l as int, k + 1));
        k += 1;
    }
    assert(cs@.subrange(a0 as int, b0 as int).subrange(l - a0, b0 - a0) == cs@.subrange(
        l as int,
        b0 as int,
    ));
    assert(cs@.subrange(l as int, b0 as int).subrange(0, t - l) == cs@.subrange(
        l as int,
        t as int,
    ));
    assert(h@ == trim(ls[0]));
    let mut em: Vec<Vec<char>> = Vec::new();
    if t > l {
        em.push(h);
    }
    let ghost head: Seq<Seq<char>> = lines_view(em@);
    assert(head == (if trim(ls[0]).len() > 0 { seq![trim(ls[0])] } else { Seq::empty() }));
    let nl = rs.len();
    // smallest indentation over the lines after the first
    let mut ind: usize = 0;
    let mut found = false;
    let mut i: usize = 1;
    while i < nl
        invariant
            1 <= i <= nl == rs@.len() == ls.len(),
            ranges_model(cs@, rs@) == ls,
            forall|q: int| 0 <= q < rs@.len() ==> #[trigger] rs@[q].0 <= rs@[q].1 <= cs.len(),
            match min_indent(ls.subrange(1, i as int)) {
                Some(m) => found && ind == m,
                None => !found && ind == 0,
            },
        decreases nl - i,
    {
        let (a, b) = rs[i];
        assert(ls[i as int] == cs@.subrange(a as int, b as int));
        assert(ls.subrange(1, i + 1).drop_last() == ls.subrange(1, i as int));
        let w = lead_ws_end(&cs, a, b);
        if w < b {
            if !found || w - a < ind {
                ind = w - a;
            }
            found = true;
        }
        i += 1;
    }
    assert(ind == common_indent(ls));
    let mut i: usize = 1;
    while i < nl
        invariant
            1 <= i <= nl,
            nl == rs@.len() == ls.len(),
            ranges_model(cs@, rs@) == ls,
            ind == common_indent(ls),
            forall|q: int| 0 <= q < rs@.len() ==> #[trigger] rs@[q].0 <= rs@[q].1 <= cs.len(),
            lines_view(em@) == head + Seq::new(
                (i - 1) as nat,
                |j: int| dedented(ls[j + 1], common_indent(ls)),
            ),
        decreases nl - i,
    {
        let (a, b) = rs[i];
        assert(ls[i as int] == cs@.subrange(a as int, b as int));
        let ghost before = lines_view(em@);
        let mut c: Vec<char> = Vec::new();
        if b - a > ind {
            assert(cs@.subrange(a as int, b as int).subrange(ind as int, b - a) == cs@.subrange(
                a + ind,
                b as int,
            ));
            push_unescaped(&mut c, &cs, a + ind, b);
        }
        assert(c@ == dedented(ls[i as int], ind as nat));
        em.push(c);
        assert(lines_view(em@) == before.push(dedented(ls[i as int], ind as nat)));
        assert(head + Seq::new(i as nat, |j: int| dedented(ls[j + 1], common_indent(ls))) == (head
            + Seq::new((i - 1) as nat, |j: int| dedented(ls[j + 1], common_indent(ls)))).push(
            dedented(ls[i as int], ind as nat),
        ));
        i += 1;
    }
    let ghost e = lines_view(em@);
    assert(e == emitted(ls));
    // drop the blank lines at the end
    let mut n2: usize = em.len();
    assert(e.subrange(0, n2 as int) == e);
    loop
        invariant
            n2 <= em.len(),
            e == lines_view(em@),
            drop_blank_tail(e) == drop_blank_tail(e.subrange(0, n2 as int)),
        ensures
            n2 <= em.len(),
            e == lines_view(em@),
            drop_blank_tail(e) == e.subrange(0, n2 as int),
        decreases n2,
    {
        if n2 == 0 {
            assert(drop_blank_tail(e.subrange(0, 0)) == e.subrange(0, 0));
            break;
        }
        let w = lead_ws_end(&em[n2 - 1], 0, em[n2 - 1].len());
        assert(em@[n2 - 1]@.subrange(0, em@[n2 - 1]@.len() as int) == em@[n2 - 1]@);
        if w != em[n2 - 1].len() {
            assert(e.subrange(0, n2 as int).last() == em@[n2 - 1]@);
            assert(!is_blank(e.subrange(0, n2 as int).last()));
            break;
        }
        assert(e.subrange(0, n2 as int).drop_last() == e.subrange(0, n2 - 1));
        n2 -= 1;
    }
    let mut out: Vec<char> = Vec::new();
    let mut i: usize = 0;
    while i < n2
        invariant
            i <= n2 <= em.len(),
            e == lines_view(em@),
            out@ == join_lines(e.subrange(0, i as int)),
        decreases n2 - i,
    {
        push_all(&mut out, &em[i]);
        out.push('\n');
        assert(e.subrange(0, i + 1).drop_last() == e.subrange(0, i as int));
        i += 1;
    }
    Ok(string_of(&out))
}

} // verus!
