//! Splitting and joining of character sequences, shared by the table and
//! record codecs: separator splitting, line splitting in the style of
//! `str::lines`, and their joins, with the lemmas relating them.
use vstd::prelude::*;

verus! {

/// The pieces of `s` between occurrences of `sep`; always at least one piece.
pub open spec fn split_seq(s: Seq<char>, sep: char) -> Seq<Seq<char>>
    decreases s.len(),
{
    if s.len() == 0 {
        seq![Seq::<char>::empty()]
    } else if s[0] == sep {
        seq![Seq::<char>::empty()] + split_seq(s.drop_first(), sep)
    } else {
        let rest = split_seq(s.drop_first(), sep);
        seq![seq![s[0]] + rest[0]] + rest.drop_first()
    }
}

/// The pieces joined again, one `sep` between each two.
pub open spec fn join_seq(parts: Seq<Seq<char>>, sep: char) -> Seq<char>
    decreases parts.len(),
{
    if parts.len() == 0 {
        Seq::<char>::empty()
    } else if parts.len() == 1 {
        parts[0]
    } else {
        parts[0] + seq![sep] + join_seq(parts.drop_first(), sep)
    }
}

/// A line with one trailing carriage return removed, as `str::lines` does.
pub open spec fn strip_cr(l: Seq<char>) -> Seq<char> {
    if l.len() > 0 && l.last() == '\r' {
        l.drop_last()
    } else {
        l
    }
}

/// The lines of `s` with the semantics of `str::lines`: pieces between
/// newlines, a trailing carriage return stripped from every piece that was
/// newline-terminated, and no final empty piece for a trailing newline.
pub open spec fn lines_seq(s: Seq<char>) -> Seq<Seq<char>> {
    if s.len() == 0 {
        Seq::<Seq<char>>::empty()
    } else if s.last() == '\n' {
        split_seq(s.drop_last(), '\n').map_values(|l: Seq<char>| strip_cr(l))
    } else {
        let parts = split_seq(s, '\n');
        parts.drop_last().map_values(|l: Seq<char>| strip_cr(l)).push(parts.last())
    }
}

pub proof fn lemma_split_len(s: Seq<char>, sep: char)
    ensures
        split_seq(s, sep).len() >= 1,
    decreases s.len(),
{
    if s.len() > 0 {
        lemma_split_len(s.drop_first(), sep);
    }
}

pub proof fn lemma_split_no_sep(s: Seq<char>, sep: char)
    ensures
        forall|i: int|
            0 <= i < split_seq(s, sep).len() ==> !(#[trigger] split_seq(s, sep)[i]).contains(sep),
    decreases s.len(),
{
    if s.len() == 0 {
        assert forall|i: int| 0 <= i < split_seq(s, sep).len() implies !(#[trigger] split_seq(
            s,
            sep,
        )[i]).contains(sep) by {
            assert(split_seq(s, sep)[i] =~= Seq::<char>::empty());
        }
    } else {
        lemma_split_no_sep(s.drop_first(), sep);
        lemma_split_len(s.drop_first(), sep);
        let rest = split_seq(s.drop_first(), sep);
        if s[0] == sep {
        } else {
            assert forall|i: int| 0 <= i < split_seq(s, sep).len() implies !(#[trigger] split_seq(
                s,
                sep,
            )[i]).contains(sep) by {
                if i == 0 {
                    let piece = seq![s[0]] + rest[0];
                    assert(!rest[0].contains(sep));
                    assert forall|k: int| 0 <= k < piece.len() implies piece[k] != sep by {
                        if k > 0 {
                            assert(piece[k] == rest[0][k - 1]);
                        }
                    }
                } else {
                    assert(split_seq(s, sep)[i] == rest[i]);
                }
            }
        }
    }
}

pub proof fn lemma_split_single(s: Seq<char>, sep: char)
    requires
        !s.contains(sep),
    ensures
        split_seq(s, sep) =~= seq![s],
    decreases s.len(),
{
    if s.len() == 0 {
        assert(split_seq(s, sep)[0] =~= s);
    } else {
        assert(s[0] != sep);
        assert(!s.drop_first().contains(sep)) by {
            assert forall|k: int| 0 <= k < s.drop_first().len() implies s.drop_first()[k]
                != sep by {
                assert(s.drop_first()[k] == s[k + 1]);
            }
        }
        lemma_split_single(s.drop_first(), sep);
        assert(split_seq(s, sep)[0] =~= s);
    }
}

/// Splitting distributes over a separator between two halves.
pub proof fn lemma_split_concat(x: Seq<char>, y: Seq<char>, sep: char)
    ensures
        split_seq(x + seq![sep] + y, sep) =~= split_seq(x, sep) + split_seq(y, sep),
    decreases x.len(),
{
    let s = x + seq![sep] + y;
    if x.len() == 0 {
        assert(s =~= seq![sep] + y);
        assert(s[0] == sep);
        assert(s.drop_first() =~= y);
        assert(split_seq(s, sep) =~= seq![Seq::<char>::empty()] + split_seq(y, sep));
        assert(split_seq(x, sep) =~= seq![Seq::<char>::empty()]);
    } else {
        assert(s[0] == x[0]);
        assert(s.drop_first() =~= x.drop_first() + seq![sep] + y);
        lemma_split_concat(x.drop_first(), y, sep);
        lemma_split_len(x.drop_first(), sep);
        lemma_split_len(y, sep);
        let restx = split_seq(x.drop_first(), sep);
        let resty = split_seq(y, sep);
        let rest = split_seq(s.drop_first(), sep);
        assert(rest =~= restx + resty);
        if x[0] == sep {
            assert(x.drop_first() =~= Seq::<char>::empty() + x.drop_first());
        } else {
            assert(rest[0] == restx[0]);
            assert(rest.drop_first() =~= restx.drop_first() + resty);
            assert(split_seq(s, sep) =~= seq![seq![s[0]] + rest[0]] + rest.drop_first());
            assert(split_seq(x, sep) =~= seq![seq![x[0]] + restx[0]] + restx.drop_first());
        }
    }
}

/// Joining the split pieces gives the sequence itself back.
pub proof fn lemma_join_split(s: Seq<char>, sep: char)
    ensures
        join_seq(split_seq(s, sep), sep) =~= s,
    decreases s.len(),
{
    if s.len() == 0 {
        assert(split_seq(s, sep) =~= seq![Seq::<char>::empty()]);
        assert(join_seq(split_seq(s, sep), sep) =~= Seq::<char>::empty());
    } else {
        lemma_join_split(s.drop_first(), sep);
        lemma_split_len(s.drop_first(), sep);
        let rest = split_seq(s.drop_first(), sep);
        if s[0] == sep {
            let parts = seq![Seq::<char>::empty()] + rest;
            assert(parts.drop_first() =~= rest);
            assert(parts.len() >= 2);
            assert(parts[0] =~= Seq::<char>::empty());
            assert(join_seq(parts, sep) =~= parts[0] + seq![sep] + join_seq(rest, sep));
            assert(s =~= seq![s[0]] + s.drop_first());
        } else {
            let parts = seq![seq![s[0]] + rest[0]] + rest.drop_first();
            if rest.len() == 1 {
                assert(parts.len() == 1);
                assert(join_seq(parts, sep) =~= seq![s[0]] + rest[0]);
                assert(join_seq(rest, sep) == rest[0]);
                assert(join_seq(parts, sep) =~= seq![s[0]] + s.drop_first());
            } else {
                assert(parts.drop_first() =~= rest.drop_first());
                assert(join_seq(parts, sep) =~= (seq![s[0]] + rest[0]) + seq![sep] + join_seq(
                    rest.drop_first(),
                    sep,
                ));
                assert(join_seq(rest, sep) =~= rest[0] + seq![sep] + join_seq(
                    rest.drop_first(),
                    sep,
                ));
                assert(join_seq(parts, sep) =~= seq![s[0]] + join_seq(rest, sep));
                assert(join_seq(parts, sep) =~= seq![s[0]] + s.drop_first());
            }
            assert(s =~= seq![s[0]] + s.drop_first());
        }
    }
}

/// Splitting a join gives the pieces back, as long as no piece holds the
/// separator.
pub proof fn lemma_split_join(parts: Seq<Seq<char>>, sep: char)
    requires
        parts.len() >= 1,
        forall|i: int| 0 <= i < parts.len() ==> !(#[trigger] parts[i]).contains(sep),
    ensures
        split_seq(join_seq(parts, sep), sep) =~= parts,
    decreases parts.len(),
{
    if parts.len() == 1 {
        lemma_split_single(parts[0], sep);
    } else {
        lemma_split_join(parts.drop_first(), sep);
        lemma_split_concat(parts[0], join_seq(parts.drop_first(), sep), sep);
        lemma_split_single(parts[0], sep);
        assert(split_seq(join_seq(parts, sep), sep) =~= seq![parts[0]] + parts.drop_first());
    }
}

/// Joining after appending one more piece.
pub proof fn lemma_join_push(parts: Seq<Seq<char>>, p: Seq<char>, sep: char)
    ensures
        join_seq(parts.push(p), sep) =~= if parts.len() == 0 {
            p
        } else {
            join_seq(parts, sep) + seq![sep] + p
        },
    decreases parts.len(),
{
    if parts.len() == 0 {
        assert(parts.push(p)[0] =~= p);
    } else if parts.len() == 1 {
        let w = parts.push(p);
        assert(w.drop_first() =~= seq![p]);
        assert(join_seq(w, sep) =~= w[0] + seq![sep] + join_seq(seq![p], sep));
        assert(join_seq(seq![p], sep) == p);
        assert(w[0] == parts[0]);
    } else {
        lemma_join_push(parts.drop_first(), p, sep);
        let w = parts.push(p);
        assert(w.drop_first() =~= parts.drop_first().push(p));
        assert(join_seq(w, sep) =~= w[0] + seq![sep] + join_seq(parts.drop_first().push(p), sep));
        assert(join_seq(parts, sep) =~= parts[0] + seq![sep] + join_seq(parts.drop_first(), sep));
    }
}

/// A join ends with the last character of a nonempty last piece.
pub proof fn lemma_join_last(parts: Seq<Seq<char>>, sep: char)
    requires
        parts.len() >= 1,
        parts.last().len() > 0,
    ensures
        join_seq(parts, sep).len() > 0,
        join_seq(parts, sep).last() == parts.last().last(),
    decreases parts.len(),
{
    if parts.len() == 1 {
    } else {
        lemma_join_last(parts.drop_first(), sep);
        assert(parts.drop_first().last() == parts.last());
    }
}

/// The lines of a sequence hold no newline.
pub proof fn lemma_lines_no_nl(s: Seq<char>)
    ensures
        forall|i: int|
            0 <= i < lines_seq(s).len() ==> !(#[trigger] lines_seq(s)[i]).contains('\n'),
{
    if s.len() == 0 {
    } else if s.last() == '\n' {
        lemma_split_no_sep(s.drop_last(), '\n');
        let parts = split_seq(s.drop_last(), '\n');
        assert forall|i: int| 0 <= i < lines_seq(s).len() implies !(#[trigger] lines_seq(
            s,
        )[i]).contains('\n') by {
            assert(lines_seq(s)[i] == strip_cr(parts[i]));
            lemma_strip_cr_keeps_no_char(parts[i], '\n');
        }
    } else {
        lemma_split_no_sep(s, '\n');
        lemma_split_len(s, '\n');
        let parts = split_seq(s, '\n');
        assert forall|i: int| 0 <= i < lines_seq(s).len() implies !(#[trigger] lines_seq(
            s,
        )[i]).contains('\n') by {
            if i < parts.len() - 1 {
                assert(lines_seq(s)[i] == strip_cr(parts[i]));
                lemma_strip_cr_keeps_no_char(parts[i], '\n');
            } else {
                assert(lines_seq(s)[i] == parts.last());
            }
        }
    }
}

proof fn lemma_strip_cr_keeps_no_char(l: Seq<char>, c: char)
    requires
        !l.contains(c),
    ensures
        !strip_cr(l).contains(c),
{
    let r = strip_cr(l);
    assert forall|k: int| 0 <= k < r.len() implies r[k] != c by {
        assert(r[k] == l[k]);
    }
}

/// Joining lines with newlines and splitting again gives the lines back,
/// as long as no line holds a newline, no line before the last ends with a
/// carriage return, and the last line is nonempty.
pub proof fn lemma_lines_join(ls: Seq<Seq<char>>)
    requires
        ls.len() >= 1,
        forall|i: int| 0 <= i < ls.len() ==> !(#[trigger] ls[i]).contains('\n'),
        forall|i: int| 0 <= i < ls.len() - 1 ==> strip_cr(#[trigger] ls[i]) == ls[i],
        ls.last().len() > 0,
    ensures
        lines_seq(join_seq(ls, '\n')) =~= ls,
{
    let t = join_seq(ls, '\n');
    lemma_join_last(ls, '\n');
    assert(ls.last().contains(ls.last().last())) by {
        assert(ls.last()[ls.last().len() - 1] == ls.last().last());
    }
    assert(t.last() != '\n');
    lemma_split_join(ls, '\n');
    let parts = split_seq(t, '\n');
    assert(parts =~= ls);
    assert(lines_seq(t) =~= parts.drop_last().map_values(|l: Seq<char>| strip_cr(l)).push(
        parts.last(),
    ));
    assert forall|i: int| 0 <= i < ls.len() implies lines_seq(t)[i] == ls[i] by {
        if i < ls.len() - 1 {
            assert(lines_seq(t)[i] == strip_cr(parts.drop_last()[i]));
            assert(parts.drop_last()[i] == ls[i]);
        }
    }
}

/// Characters that tag normalization keeps: everything but line breaks.
pub open spec fn keeps_char(c: char) -> bool {
    c != '\r' && c != '\n'
}

/// The sequence with every carriage return and newline removed.
pub open spec fn without_breaks(s: Seq<char>) -> Seq<char> {
    s.filter(|c: char| keeps_char(c))
}

proof fn lemma_without_breaks_push(s: Seq<char>, c: char)
    ensures
        without_breaks(s.push(c)) == if keeps_char(c) {
            without_breaks(s).push(c)
        } else {
            without_breaks(s)
        },
{
    reveal(Seq::filter);
    assert(s.push(c).drop_last() =~= s);
    assert(s.push(c).last() == c);
}

/// The last `/`-separated segment of a path; the whole path when it holds
/// no separator.
pub open spec fn last_segment(p: Seq<char>) -> Seq<char> {
    split_seq(p, '/').last()
}

/// A path extended by one segment ends in exactly that segment.
pub proof fn lemma_last_segment_concat(base: Seq<char>, name: Seq<char>)
    requires
        !name.contains('/'),
    ensures
        last_segment(base + seq!['/'] + name) == name,
{
    lemma_split_concat(base, name, '/');
    lemma_split_single(name, '/');
    lemma_split_len(base, '/');
}

/// The pieces of `s` between occurrences of `sep`.
pub fn split_str(s: &str, sep: char) -> (r: Vec<String>)
    ensures
        r.deep_view() == split_seq(s@, sep),
{
    let n = s.unicode_len();
    let mut parts: Vec<String> = Vec::new();
    proof {
        assert(s@.subrange(0, n as int) =~= s@);
        assert(parts.deep_view() =~= Seq::<Seq<char>>::empty());
        assert(split_seq(s@, sep) =~= parts.deep_view() + split_seq(
            s@.subrange(0, n as int),
            sep,
        ));
    }
    let mut start: usize = 0;
    let mut i: usize = 0;
    while i < n
        invariant
            n == s@.len(),
            start <= i <= n,
            forall|k: int| start <= k < i ==> s@[k] != sep,
            split_seq(s@, sep) =~= parts.deep_view() + split_seq(
                s@.subrange(start as int, n as int),
                sep,
            ),
        decreases n - i,
    {
        let c = s.get_char(i);
        if c == sep {
            let ghost old_parts = parts.deep_view();
            let piece = s.substring_char(start, i);
            parts.push(piece.to_owned());
            proof {
                let head = s@.subrange(start as int, i as int);
                let tail = s@.subrange(i as int + 1, n as int);
                assert(s@.subrange(start as int, n as int) =~= head + seq![sep] + tail);
                assert(!head.contains(sep)) by {
                    assert forall|k: int| 0 <= k < head.len() implies head[k] != sep by {
                        assert(head[k] == s@[start + k]);
                    }
                }
                lemma_split_concat(head, tail, sep);
                lemma_split_single(head, sep);
                assert(parts.deep_view() =~= old_parts.push(head));
            }
            start = i + 1;
        }
        i += 1;
    }
    let ghost old_parts = parts.deep_view();
    let last = s.substring_char(start, n);
    parts.push(last.to_owned());
    proof {
        let tail = s@.subrange(start as int, n as int);
        assert(!tail.contains(sep)) by {
            assert forall|k: int| 0 <= k < tail.len() implies tail[k] != sep by {
                assert(tail[k] == s@[start + k]);
            }
        }
        lemma_split_single(tail, sep);
        assert(parts.deep_view() =~= old_parts.push(tail));
        assert(parts.deep_view() =~= split_seq(s@, sep));
    }
    parts
}

/// A copy of the line with one trailing carriage return removed.
pub fn strip_cr_str(l: &String) -> (r: String)
    ensures
        r@ == strip_cr(l@),
{
    let n = l.as_str().unicode_len();
    if n > 0 && l.as_str().get_char(n - 1) == '\r' {
        proof {
            assert(l@.subrange(0, n as int - 1) =~= l@.drop_last());
        }
        l.as_str().substring_char(0, n - 1).to_owned()
    } else {
        l.clone()
    }
}

/// The lines of `s`, with the semantics of `str::lines`.
pub fn split_lines(s: &str) -> (r: Vec<String>)
    ensures
        r.deep_view() == lines_seq(s@),
{
    let n = s.unicode_len();
    if n == 0 {
        let r: Vec<String> = Vec::new();
        proof {
            assert(r.deep_view() =~= lines_seq(s@));
        }
        return r;
    }
    let last_is_nl = s.get_char(n - 1) == '\n';
    let body: &str = if last_is_nl {
        s.substring_char(0, n - 1)
    } else {
        s
    };
    proof {
        if last_is_nl {
            assert(body@ =~= s@.drop_last());
        }
    }
    let parts = split_str(body, '\n');
    proof {
        lemma_split_len(body@, '\n');
    }
    let stop: usize = if last_is_nl {
        parts.len()
    } else {
        parts.len() - 1
    };
    let mut out: Vec<String> = Vec::new();
    let mut i: usize = 0;
    while i < parts.len()
        invariant
            out.len() == i,
            i <= parts.len(),
            stop <= parts.len(),
            forall|j: int|
                0 <= j < i ==> out.deep_view()[j] == if j < stop {
                    strip_cr(parts.deep_view()[j])
                } else {
                    parts.deep_view()[j]
                },
        decreases parts.len() - i,
    {
        let ghost old_out = out.deep_view();
        if i < stop {
            out.push(strip_cr_str(&parts[i]));
            proof {
                assert(out.deep_view() =~= old_out.push(strip_cr(parts.deep_view()[i as int])));
            }
        } else {
            out.push(parts[i].clone());
            proof {
                assert(out.deep_view() =~= old_out.push(parts.deep_view()[i as int]));
            }
        }
        i += 1;
    }
    proof {
        let pv = parts.deep_view();
        if last_is_nl {
            assert(out.deep_view() =~= pv.map_values(|l: Seq<char>| strip_cr(l)));
        } else {
            assert(out.deep_view() =~= pv.drop_last().map_values(|l: Seq<char>| strip_cr(l)).push(
                pv.last(),
            ));
        }
    }
    out
}

/// The pieces joined, one copy of the single-character `sep` between each
/// two.
pub fn join_strs(parts: &Vec<String>, sep: &str) -> (r: String)
    requires
        sep@.len() == 1,
    ensures
        r@ == join_seq(parts.deep_view(), sep@[0]),
{
    let mut r = String::new();
    let mut i: usize = 0;
    while i < parts.len()
        invariant
            i <= parts.len(),
            sep@.len() == 1,
            r@ == join_seq(parts.deep_view().subrange(0, i as int), sep@[0]),
        decreases parts.len() - i,
    {
        if i > 0 {
            r.append(sep);
        }
        r.append(parts[i].as_str());
        proof {
            let dv = parts.deep_view();
            assert(dv.subrange(0, i as int + 1) =~= dv.subrange(0, i as int).push(dv[i as int]));
            lemma_join_push(dv.subrange(0, i as int), dv[i as int], sep@[0]);
            assert(seq![sep@[0]] =~= sep@);
            assert(r@ =~= join_seq(dv.subrange(0, i as int + 1), sep@[0]));
        }
        i += 1;
    }
    proof {
        assert(parts.deep_view().subrange(0, parts.len() as int) =~= parts.deep_view());
    }
    r
}

/// `base` and `name` joined by a single path separator.
pub fn path_join(base: &str, name: &str) -> (r: String)
    ensures
        r@ == base@ + seq!['/'] + name@,
{
    let mut r = base.to_owned();
    r.append("/");
    r.append(name);
    proof {
        reveal_strlit("/");
        assert("/"@ =~= seq!['/']);
        assert(r@ =~= base@ + seq!['/'] + name@);
    }
    r
}

/// A copy of the last `/`-separated segment of `p`.
pub fn last_segment_str(p: &str) -> (r: String)
    ensures
        r@ == last_segment(p@),
{
    let mut parts = split_str(p, '/');
    proof {
        lemma_split_len(p@, '/');
    }
    let r = parts.pop().unwrap();
    proof {
        assert(r@ == split_seq(p@, '/').last());
    }
    r
}

/// The string with every carriage return and newline removed.
pub fn drop_breaks(s: &str) -> (r: String)
    ensures
        r@ == without_breaks(s@),
{
    let n = s.unicode_len();
    let mut r = String::new();
    let mut i: usize = 0;
    while i < n
        invariant
            n == s@.len(),
            i <= n,
            r@ == without_breaks(s@.subrange(0, i as int)),
        decreases n - i,
    {
        let c = s.get_char(i);
        if c != '\r' && c != '\n' {
            r.append(s.substring_char(i, i + 1));
        }
        proof {
            let pre = s@.subrange(0, i as int);
            assert(s@.subrange(0, i as int + 1) =~= pre.push(s@[i as int]));
            lemma_without_breaks_push(pre, s@[i as int]);
            if keeps_char(s@[i as int]) {
                assert(s@.subrange(i as int, i as int + 1) =~= seq![s@[i as int]]);
                assert(r@ =~= without_breaks(pre).push(s@[i as int]));
            }
        }
        i += 1;
    }
    proof {
        assert(s@.subrange(0, n as int) =~= s@);
    }
    r
}

} // verus!
