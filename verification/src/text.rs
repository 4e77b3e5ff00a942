//! Character-level text handling: Unicode white space, trimming, and the
//! splitting of bridge-file content into lines.
use vstd::prelude::*;

verus! {

/// The characters of `s`, in order.
pub fn chars_of(s: &str) -> (v: Vec<char>)
    ensures
        v@ == s@,
{
    let mut v: Vec<char> = Vec::new();
    for c in it: s.chars()
        invariant
            v@ == it.seq().take(it.index() as int),
            it.seq() == s@,
    {
        v.push(c);
    }
    v
}


/// Unicode `White_Space`, the property behind `char::is_whitespace`.
pub open spec fn is_white_space(c: char) -> bool {
    let u = c as u32;
    ||| 0x9 <= u <= 0xd
    ||| u == 0x20
    ||| u == 0x85
    ||| u == 0xa0
    ||| u == 0x1680
    ||| 0x2000 <= u <= 0x200a
    ||| u == 0x2028
    ||| u == 0x2029
    ||| u == 0x202f
    ||| u == 0x205f
    ||| u == 0x3000
}

/// Whether `c` is Unicode white space.
pub fn is_white_space_char(c: char) -> (r: bool)
    ensures
        r == is_white_space(c),
{
    let u = c as u32;
    (0x9 <= u && u <= 0xd) || u == 0x20 || u == 0x85 || u == 0xa0 || u == 0x1680 || (0x2000 <= u
        && u <= 0x200a) || u == 0x2028 || u == 0x2029 || u == 0x202f || u == 0x205f || u == 0x3000
}

/// `s` without its leading white space.
pub open spec fn trim_start(s: Seq<char>) -> Seq<char>
    decreases s.len(),
{
    if s.len() > 0 && is_white_space(s[0]) {
        trim_start(s.drop_first())
    } else {
        s
    }
}

/// `s` without its trailing white space.
pub open spec fn trim_end(s: Seq<char>) -> Seq<char>
    decreases s.len(),
{
    if s.len() > 0 && is_white_space(s.last()) {
        trim_end(s.drop_last())
    } else {
        s
    }
}

/// `s` without leading and trailing white space (`str::trim`).
pub open spec fn trim(s: Seq<char>) -> Seq<char> {
    trim_end(trim_start(s))
}

/// The bounds, within `[lo, hi)`, of that range of `v` trimmed.
pub fn trim_bounds(v: &Vec<char>, lo: usize, hi: usize) -> (r: (usize, usize))
    requires
        lo <= hi <= v@.len(),
    ensures
        lo <= r.0 <= r.1 <= hi,
        v@.subrange(r.0 as int, r.1 as int) == trim(v@.subrange(lo as int, hi as int)),
{
    let mut a = lo;
    while a < hi && is_white_space_char(v[a])
        invariant
            lo <= a <= hi <= v@.len(),
            trim_start(v@.subrange(lo as int, hi as int)) == trim_start(
                v@.subrange(a as int, hi as int),
            ),
        decreases hi - a,
    {
        assert(v@.subrange(a as int, hi as int).drop_first() =~= v@.subrange(a + 1, hi as int));
        a = a + 1;
    }
    assert(trim_start(v@.subrange(a as int, hi as int)) == v@.subrange(a as int, hi as int));
    let mut b = hi;
    while b > a && is_white_space_char(v[b - 1])
        invariant
            lo <= a <= b <= hi <= v@.len(),
            trim_end(v@.subrange(a as int, hi as int)) == trim_end(v@.subrange(a as int, b as int)),
        decreases b - a,
    {
        assert(v@.subrange(a as int, b as int).drop_last() =~= v@.subrange(a as int, b - 1));
        b = b - 1;
    }
    assert(trim_end(v@.subrange(a as int, b as int)) == v@.subrange(a as int, b as int));
    (a, b)
}

/// `s` is white space only (it trims to nothing).
pub fn is_blank(s: &str) -> (r: bool)
    ensures
        r == (trim(s@).len() == 0),
{
    let v = chars_of(s);
    let (a, b) = trim_bounds(&v, 0, v.len());
    assert(v@.subrange(0, v@.len() as int) =~= s@);
    a == b
}

/// The pieces of `s` between line feeds, the last piece included even
/// when empty.
pub open spec fn split_lines(s: Seq<char>) -> Seq<Seq<char>>
    decreases s.len(),
{
    if s.len() == 0 {
        seq![Seq::<char>::empty()]
    } else {
        let init = split_lines(s.drop_last());
        if s.last() == '\n' {
            init.push(Seq::<char>::empty())
        } else {
            init.update(init.len() - 1, init.last().push(s.last()))
        }
    }
}

/// The lines of `s`, each trimmed, empty ones dropped: what the bridge
/// poller reads from its file.  (Stripping a line's `\r` and the final
/// line feed's lack of a line after it change nothing here, as both only
/// ever touch white space or empty lines.)
pub open spec fn trimmed_lines(s: Seq<char>) -> Seq<Seq<char>> {
    split_lines(s).map_values(|l: Seq<char>| trim(l)).filter(|l: Seq<char>| l.len() > 0)
}

proof fn lemma_keep_nonempty_push(done: Seq<Seq<char>>, line: Seq<char>)
    ensures
        done.push(line).map_values(|l: Seq<char>| trim(l)).filter(|l: Seq<char>| l.len() > 0) == {
            let kept = done.map_values(|l: Seq<char>| trim(l)).filter(|l: Seq<char>| l.len() > 0);
            if trim(line).len() > 0 {
                kept.push(trim(line))
            } else {
                kept
            }
        },
{
    let f = |l: Seq<char>| trim(l);
    let p = |l: Seq<char>| l.len() > 0;
    let m = done.push(line).map_values(f);
    assert(m =~= done.map_values(f).push(trim(line)));
    assert(m.drop_last() =~= done.map_values(f));
    reveal_with_fuel(Seq::filter, 1);
}

/// The trimmed, non-empty lines of `content`.
pub fn trimmed_nonempty_lines(content: &str) -> (r: Vec<String>)
    ensures
        r.deep_view() == trimmed_lines(content@),
{
    let v = chars_of(content);
    let n = v.len();
    let mut out: Vec<String> = Vec::new();
    let mut line_start: usize = 0;
    let ghost mut done: Seq<Seq<char>> = Seq::empty();
    let mut i: usize = 0;
    proof {
        assert(v@.take(0) =~= Seq::<char>::empty());
        assert(done.push(v@.subrange(0, 0)) =~= seq![Seq::<char>::empty()]);
        reveal_with_fuel(Seq::filter, 1);
        assert(done.map_values(|l: Seq<char>| trim(l)) =~= Seq::<Seq<char>>::empty());
    }
    while i < n
        invariant
            n == v@.len(),
            v@ == content@,
            line_start <= i <= n,
            split_lines(v@.take(i as int)) == done.push(v@.subrange(line_start as int, i as int)),
            out.deep_view() == done.map_values(|l: Seq<char>| trim(l)).filter(
                |l: Seq<char>| l.len() > 0,
            ),
        decreases n - i,
    {
        let c = v[i];
        let ghost before = v@.take(i as int);
        assert(v@.take(i + 1).drop_last() =~= before);
        assert(v@.take(i + 1).last() == c);
        if c == '\n' {
            let (a, b) = trim_bounds(&v, line_start, i);
            proof {
                lemma_keep_nonempty_push(done, v@.subrange(line_start as int, i as int));
            }
            if a < b {
                let piece = content.substring_char(a, b).to_owned();
                let ghost prev = out.deep_view();
                out.push(piece);
                assert(out.deep_view() =~= prev.push(v@.subrange(a as int, b as int)));
            }
            proof {
                done = done.push(v@.subrange(line_start as int, i as int));
            }
            line_start = i + 1;
            assert(v@.subrange(line_start as int, i + 1) =~= Seq::<char>::empty());
        } else {
            assert(v@.subrange(line_start as int, i + 1) =~= v@.subrange(
                line_start as int,
                i as int,
            ).push(c));
        }
        i = i + 1;
    }
    let (a, b) = trim_bounds(&v, line_start, n);
    proof {
        lemma_keep_nonempty_push(done, v@.subrange(line_start as int, n as int));
        assert(v@.take(n as int) =~= v@);
    }
    if a < b {
        let piece = content.substring_char(a, b).to_owned();
        let ghost prev = out.deep_view();
        out.push(piece);
        assert(out.deep_view() =~= prev.push(v@.subrange(a as int, b as int)));
    }
    out
}


proof fn lemma_trim_start_cut(s: Seq<char>) -> (a: int)
    ensures
        0 <= a <= s.len(),
        trim_start(s) == s.subrange(a, s.len() as int),
        forall|i: int| 0 <= i < a ==> is_white_space(#[trigger] s[i]),
        a < s.len() ==> !is_white_space(s[a]),
    decreases s.len(),
{
    if s.len() > 0 && is_white_space(s[0]) {
        let t = s.drop_first();
        let a1 = lemma_trim_start_cut(t);
        assert(t.subrange(a1, t.len() as int) =~= s.subrange(a1 + 1, s.len() as int));
        assert forall|i: int| 0 <= i < a1 + 1 implies is_white_space(#[trigger] s[i]) by {
            if i > 0 {
                assert(s[i] == t[i - 1]);
            }
        }
        a1 + 1
    } else {
        assert(s.subrange(0, s.len() as int) =~= s);
        0
    }
}

proof fn lemma_trim_end_cut(s: Seq<char>) -> (b: int)
    ensures
        0 <= b <= s.len(),
        trim_end(s) == s.subrange(0, b),
        forall|i: int| b <= i < s.len() ==> is_white_space(#[trigger] s[i]),
        b > 0 ==> !is_white_space(s[b - 1]),
    decreases s.len(),
{
    if s.len() > 0 && is_white_space(s.last()) {
        let t = s.drop_last();
        let b1 = lemma_trim_end_cut(t);
        assert(t.subrange(0, b1) =~= s.subrange(0, b1));
        assert forall|i: int| b1 <= i < s.len() implies is_white_space(#[trigger] s[i]) by {
            if i < s.len() - 1 {
                assert(s[i] == t[i]);
            }
        }
        b1
    } else {
        assert(s.subrange(0, s.len() as int) =~= s);
        s.len() as int
    }
}

/// Trimming keeps one contiguous middle part of the text: everything cut
/// off at either end is white space, and what is kept, when anything is,
/// starts and ends with a character that is not.
pub proof fn lemma_trim_cuts_only_white_space(s: Seq<char>)
    ensures
        exists|a: int, b: int|
            #![trigger s.subrange(a, b)]
            0 <= a <= b <= s.len() && trim(s) == s.subrange(a, b) && (forall|i: int|
                0 <= i < a ==> is_white_space(#[trigger] s[i])) && (forall|i: int|
                b <= i < s.len() ==> is_white_space(#[trigger] s[i])) && (a < b
                ==> !is_white_space(s[a]) && !is_white_space(s[b - 1])),
{
    let a = lemma_trim_start_cut(s);
    let rest = s.subrange(a, s.len() as int);
    let b1 = lemma_trim_end_cut(rest);
    let b = a + b1;
    assert(rest.subrange(0, b1) =~= s.subrange(a, b));
    assert forall|i: int| b <= i < s.len() implies is_white_space(#[trigger] s[i]) by {
        assert(s[i] == rest[i - a]);
    }
    if a < b {
        assert(s[a] == rest[0]);
        assert(s[b - 1] == rest[b1 - 1]);
    }
    assert(trim(s) == s.subrange(a, b));
}

/// The pieces joined back together with a line feed between each two.
pub open spec fn join_lines(pieces: Seq<Seq<char>>) -> Seq<char>
    decreases pieces.len(),
{
    if pieces.len() == 0 {
        Seq::empty()
    } else if pieces.len() == 1 {
        pieces[0]
    } else {
        join_lines(pieces.drop_last()) + seq!['\n'] + pieces.last()
    }
}

proof fn lemma_join_extends_last(p: Seq<Seq<char>>, c: char)
    requires
        p.len() >= 1,
    ensures
        join_lines(p.update(p.len() - 1, p.last().push(c))) == join_lines(p).push(c),
{
    let q = p.update(p.len() - 1, p.last().push(c));
    if p.len() == 1 {
        assert(q[0] == p[0].push(c));
    } else {
        assert(q.drop_last() =~= p.drop_last());
        assert(q.last() == p.last().push(c));
        assert(join_lines(q) =~= join_lines(p).push(c));
    }
}

/// Splitting at line feeds loses nothing and keeps no line feed: there is
/// at least one piece, no piece holds a line feed, and joining the pieces
/// with line feeds gives the text back.
pub proof fn lemma_split_lines_rejoins(s: Seq<char>)
    ensures
        split_lines(s).len() >= 1,
        forall|i: int, j: int|
            0 <= i < split_lines(s).len() && 0 <= j < split_lines(s)[i].len() ==> #[trigger] split_lines(
                s,
            )[i][j] != '\n',
        join_lines(split_lines(s)) == s,
    decreases s.len(),
{
    if s.len() > 0 {
        let t = s.drop_last();
        lemma_split_lines_rejoins(t);
        let init = split_lines(t);
        let c = s.last();
        assert(t.push(c) =~= s);
        if c == '\n' {
            let r = init.push(Seq::<char>::empty());
            assert(r.drop_last() =~= init);
            assert(join_lines(r) =~= join_lines(init) + seq!['\n'] + Seq::<char>::empty());
            assert forall|i: int, j: int|
                0 <= i < r.len() && 0 <= j < r[i].len() implies #[trigger] r[i][j] != '\n' by {
                if i < init.len() {
                    assert(r[i] == init[i]);
                }
            }
        } else {
            let r = init.update(init.len() - 1, init.last().push(c));
            lemma_join_extends_last(init, c);
            assert forall|i: int, j: int|
                0 <= i < r.len() && 0 <= j < r[i].len() implies #[trigger] r[i][j] != '\n' by {
                if i < init.len() - 1 {
                    assert(r[i] == init[i]);
                } else {
                    assert(r[i] == init[i].push(c));
                    if j < init[i].len() {
                        assert(r[i][j] == init[i][j]);
                    }
                }
            }
        }
    } else {
        assert(join_lines(split_lines(s)) =~= s);
    }
}


proof fn lemma_trimmed_piece_is_clean(x: Seq<char>)
    requires
        forall|j: int| 0 <= j < x.len() ==> #[trigger] x[j] != '\n',
        trim(x).len() > 0,
    ensures
        !is_white_space(trim(x)[0]),
        !is_white_space(trim(x).last()),
        forall|j: int| 0 <= j < trim(x).len() ==> #[trigger] trim(x)[j] != '\n',
{
    lemma_trim_cuts_only_white_space(x);
    let (a, b) = choose|a: int, b: int|
        #![trigger x.subrange(a, b)]
        0 <= a <= b <= x.len() && trim(x) == x.subrange(a, b) && (forall|i: int|
            0 <= i < a ==> is_white_space(#[trigger] x[i])) && (forall|i: int|
            b <= i < x.len() ==> is_white_space(#[trigger] x[i])) && (a < b ==> !is_white_space(
            x[a],
        ) && !is_white_space(x[b - 1]));
    let t = trim(x);
    assert(t[0] == x[a]);
    assert(t.last() == x[b - 1]);
    assert forall|j: int| 0 <= j < t.len() implies #[trigger] t[j] != '\n' by {
        assert(t[j] == x[a + j]);
    }
}

/// The lines read from a text are clean: each is non-empty, holds no line
/// feed, and neither starts nor ends with white space; and every line of
/// the text that is not blank is among them, trimmed.
pub proof fn lemma_trimmed_lines_are_clean(s: Seq<char>)
    ensures
        forall|i: int|
            #![trigger trimmed_lines(s)[i]]
            0 <= i < trimmed_lines(s).len() ==> {
                let l = trimmed_lines(s)[i];
                &&& l.len() > 0
                &&& !is_white_space(l[0])
                &&& !is_white_space(l.last())
                &&& forall|j: int| 0 <= j < l.len() ==> #[trigger] l[j] != '\n'
            },
        forall|i: int|
            0 <= i < split_lines(s).len() && trim(#[trigger] split_lines(s)[i]).len() > 0
                ==> trimmed_lines(s).contains(trim(split_lines(s)[i])),
{
    let pieces = split_lines(s);
    let f = |l: Seq<char>| trim(l);
    let p = |l: Seq<char>| l.len() > 0;
    let m = pieces.map_values(f);
    lemma_split_lines_rejoins(s);
    assert forall|i: int|
        #![trigger trimmed_lines(s)[i]]
        0 <= i < trimmed_lines(s).len() implies {
        let l = trimmed_lines(s)[i];
        &&& l.len() > 0
        &&& !is_white_space(l[0])
        &&& !is_white_space(l.last())
        &&& forall|j: int| 0 <= j < l.len() ==> #[trigger] l[j] != '\n'
    } by {
        let l = m.filter(p)[i];
        m.lemma_filter_pred(p, i);
        assert(m.filter(p).contains(l));
        m.lemma_filter_contains_rev(p, l);
        let k = choose|k: int| 0 <= k < m.len() && m[k] == l;
        assert(l == trim(pieces[k]));
        assert forall|j: int| 0 <= j < pieces[k].len() implies #[trigger] pieces[k][j] != '\n' by {
            assert(split_lines(s)[k][j] != '\n');
        }
        lemma_trimmed_piece_is_clean(pieces[k]);
    }
    assert forall|i: int|
        0 <= i < pieces.len() && trim(#[trigger] pieces[i]).len() > 0 implies m.filter(p).contains(
        trim(pieces[i]),
    ) by {
        assert(m[i] == trim(pieces[i]));
        m.lemma_filter_contains(p, i);
    }
}

} // verus!
