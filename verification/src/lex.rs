//! Line and token splitting for the wire codec: a header block is cut at
//! `\r\n` pairs (empty lines discarded), and a start line is cut at spaces.

use vstd::prelude::*;

verus! {

/// The views of a sequence of borrowed string slices.
pub open spec fn views<'a>(ts: Seq<&'a str>) -> Seq<Seq<char>> {
    ts.map_values(|t: &str| t@)
}

/// Splitting a character sequence at every occurrence of `sep`, keeping
/// empty pieces; the result always holds at least one piece.
pub open spec fn split_at_char(s: Seq<char>, sep: char) -> Seq<Seq<char>>
    decreases s.len(),
{
    if s.len() == 0 {
        seq![Seq::<char>::empty()]
    } else if s[0] == sep {
        seq![Seq::<char>::empty()] + split_at_char(s.drop_first(), sep)
    } else {
        let r = split_at_char(s.drop_first(), sep);
        seq![seq![s[0]] + r[0]] + r.drop_first()
    }
}

pub proof fn lemma_split_at_char_len(s: Seq<char>, sep: char)
    ensures
        split_at_char(s, sep).len() >= 1,
    decreases s.len(),
{
    if s.len() > 0 {
        lemma_split_at_char_len(s.drop_first(), sep);
    }
}

/// A piece without the separator splits into itself alone.
pub proof fn lemma_split_at_char_whole(s: Seq<char>, sep: char)
    requires
        forall|i: int| 0 <= i < s.len() ==> s[i] != sep,
    ensures
        split_at_char(s, sep) == seq![s],
    decreases s.len(),
{
    if s.len() == 0 {
        assert(split_at_char(s, sep) =~~= seq![s]);
    } else {
        assert(forall|i: int|
            0 <= i < s.drop_first().len() ==> #[trigger] s.drop_first()[i] == s[i + 1]);
        lemma_split_at_char_whole(s.drop_first(), sep);
        assert(seq![s[0]] + s.drop_first() =~= s);
        assert(split_at_char(s, sep) =~~= seq![s]);
    }
}

/// Cutting off a separator-free token and its separator from the front.
pub proof fn lemma_split_at_char_token(t: Seq<char>, rest: Seq<char>, sep: char)
    requires
        forall|i: int| 0 <= i < t.len() ==> t[i] != sep,
    ensures
        split_at_char(t + seq![sep] + rest, sep) == seq![t] + split_at_char(rest, sep),
    decreases t.len(),
{
    let s = t + seq![sep] + rest;
    if t.len() == 0 {
        assert(s[0] == sep);
        assert(s.drop_first() =~= rest);
        assert(split_at_char(s, sep) =~~= seq![t] + split_at_char(rest, sep));
    } else {
        assert(s[0] == t[0]);
        assert(s[0] != sep);
        assert(s.drop_first() =~= t.drop_first() + seq![sep] + rest);
        assert(forall|i: int|
            0 <= i < t.drop_first().len() ==> #[trigger] t.drop_first()[i] == t[i + 1]);
        lemma_split_at_char_token(t.drop_first(), rest, sep);
        let r = split_at_char(s.drop_first(), sep);
        lemma_split_at_char_len(rest, sep);
        assert(r == seq![t.drop_first()] + split_at_char(rest, sep));
        assert(r[0] == t.drop_first());
        assert(seq![s[0]] + r[0] =~= t);
        assert(r.drop_first() =~= split_at_char(rest, sep));
        assert(split_at_char(s, sep) =~~= seq![t] + split_at_char(rest, sep));
    }
}

/// Splits a string at every occurrence of `sep`, keeping empty tokens,
/// exactly as [`split_at_char`] describes.
pub fn split_tokens<'a>(s: &'a str, sep: char) -> (r: Vec<&'a str>)
    ensures
        views(r@) == split_at_char(s@, sep),
{
    let n = s.unicode_len();
    let mut out: Vec<&str> = Vec::new();
    let mut start: usize = 0;
    let mut i: usize = 0;
    proof {
        assert(s@.subrange(0, n as int) =~= s@);
    }
    while i < n
        invariant
            n == s@.len(),
            0 <= start <= i <= n,
            forall|j: int| start <= j < i ==> s@[j] != sep,
            split_at_char(s@, sep) =~~= views(out@) + split_at_char(
                s@.subrange(start as int, n as int),
                sep,
            ),
        decreases n - i,
    {
        if s.get_char(i) == sep {
            let tok = s.substring_char(start, i);
            proof {
                let tail = s@.subrange(start as int, n as int);
                assert(tail =~= tok@ + seq![sep] + s@.subrange(i + 1, n as int));
                lemma_split_at_char_token(tok@, s@.subrange(i + 1, n as int), sep);
                assert(views(out@.push(tok)) =~= views(out@) + seq![tok@]);
            }
            out.push(tok);
            start = i + 1;
        }
        i = i + 1;
    }
    let tok = s.substring_char(start, n);
    proof {
        lemma_split_at_char_whole(tok@, sep);
        assert(tok@ =~= s@.subrange(start as int, n as int));
        assert(views(out@.push(tok)) =~= views(out@) + seq![tok@]);
    }
    out.push(tok);
    proof {
        assert(views(out@) =~~= split_at_char(s@, sep));
    }
    out
}

/// Whether a `\r\n` pair occurs anywhere in the sequence.
pub open spec fn has_crlf(s: Seq<char>) -> bool
    decreases s.len(),
{
    if s.len() < 2 {
        false
    } else {
        (s[0] == '\r' && s[1] == '\n') || has_crlf(s.drop_first())
    }
}

/// Pointwise characterization of [`has_crlf`].
pub proof fn lemma_has_crlf_iff(s: Seq<char>)
    ensures
        has_crlf(s) <==> exists|j: int|
            0 <= j && j + 1 < s.len() && s[j] == '\r' && #[trigger] s[j + 1] == '\n',
    decreases s.len(),
{
    if s.len() >= 2 {
        lemma_has_crlf_iff(s.drop_first());
        assert(forall|i: int|
            0 <= i < s.drop_first().len() ==> #[trigger] s.drop_first()[i] == s[i + 1]);
        if has_crlf(s) {
            if s[0] == '\r' && s[1] == '\n' {
                let z: int = 0;
                assert(s[z + 1] == '\n');
            } else {
                let j = choose|j: int|
                    0 <= j && j + 1 < s.drop_first().len() && s.drop_first()[j] == '\r'
                        && #[trigger] s.drop_first()[j + 1] == '\n';
                assert(s[j + 1] == '\r' && s[j + 2] == '\n');
                assert(s[(j + 1) + 1] == '\n');
            }
        }
        if exists|j: int|
            0 <= j && j + 1 < s.len() && s[j] == '\r' && #[trigger] s[j + 1] == '\n' {
            let j = choose|j: int|
                0 <= j && j + 1 < s.len() && s[j] == '\r' && #[trigger] s[j + 1] == '\n';
            if j == 0 {
                assert(has_crlf(s));
            } else {
                assert(s.drop_first()[j - 1] == '\r');
                assert(s.drop_first()[(j - 1) + 1] == '\n');
                assert(has_crlf(s.drop_first()));
            }
        }
    }
}

/// Splitting a character sequence at every `\r\n` pair, keeping empty lines.
pub open spec fn split_crlf(s: Seq<char>) -> Seq<Seq<char>>
    decreases s.len(),
{
    if s.len() < 2 {
        seq![s]
    } else if s[0] == '\r' && s[1] == '\n' {
        seq![Seq::<char>::empty()] + split_crlf(s.skip(2))
    } else {
        let r = split_crlf(s.drop_first());
        seq![seq![s[0]] + r[0]] + r.drop_first()
    }
}

pub proof fn lemma_split_crlf_len(s: Seq<char>)
    ensures
        split_crlf(s).len() >= 1,
    decreases s.len(),
{
    if s.len() >= 2 {
        if s[0] == '\r' && s[1] == '\n' {
            lemma_split_crlf_len(s.skip(2));
        } else {
            lemma_split_crlf_len(s.drop_first());
        }
    }
}

/// A line without a `\r\n` pair splits into itself alone.
pub proof fn lemma_split_crlf_whole(s: Seq<char>)
    requires
        !has_crlf(s),
    ensures
        split_crlf(s) == seq![s],
    decreases s.len(),
{
    if s.len() >= 2 {
        lemma_split_crlf_whole(s.drop_first());
        assert(seq![s[0]] + s.drop_first() =~= s);
        assert(split_crlf(s) =~~= seq![s]);
    }
}

/// Cutting off a `\r\n`-free line and its terminator from the front.
pub proof fn lemma_split_crlf_line(t: Seq<char>, rest: Seq<char>)
    requires
        !has_crlf(t),
    ensures
        split_crlf(t + seq!['\r', '\n'] + rest) == seq![t] + split_crlf(rest),
    decreases t.len(),
{
    let s = t + seq!['\r', '\n'] + rest;
    if t.len() == 0 {
        assert(s[0] == '\r' && s[1] == '\n');
        assert(s.skip(2) =~= rest);
        assert(split_crlf(s) =~~= seq![t] + split_crlf(rest));
    } else {
        assert(s[0] == t[0]);
        assert(s.len() >= 3);
        if t.len() == 1 {
            assert(s[1] == '\r');
            assert(!(s[0] == '\r' && s[1] == '\n'));
        } else {
            assert(s[1] == t[1]);
            assert(!(t[0] == '\r' && t[1] == '\n'));
        }
        assert(s.drop_first() =~= t.drop_first() + seq!['\r', '\n'] + rest);
        lemma_split_crlf_line(t.drop_first(), rest);
        let r = split_crlf(s.drop_first());
        lemma_split_crlf_len(rest);
        assert(r == seq![t.drop_first()] + split_crlf(rest));
        assert(r[0] == t.drop_first());
        assert(seq![s[0]] + r[0] =~= t);
        assert(r.drop_first() =~= split_crlf(rest));
        assert(split_crlf(s) =~~= seq![t] + split_crlf(rest));
    }
}

/// The nonempty lines, in order.
pub open spec fn drop_empty(ls: Seq<Seq<char>>) -> Seq<Seq<char>>
    decreases ls.len(),
{
    if ls.len() == 0 {
        Seq::empty()
    } else if ls[0].len() == 0 {
        drop_empty(ls.drop_first())
    } else {
        seq![ls[0]] + drop_empty(ls.drop_first())
    }
}

pub proof fn lemma_drop_empty_append(a: Seq<Seq<char>>, b: Seq<Seq<char>>)
    ensures
        drop_empty(a + b) == drop_empty(a) + drop_empty(b),
    decreases a.len(),
{
    if a.len() == 0 {
        assert(a + b =~= b);
        assert(drop_empty(a) + drop_empty(b) =~= drop_empty(b));
    } else {
        assert((a + b).drop_first() =~= a.drop_first() + b);
        lemma_drop_empty_append(a.drop_first(), b);
        if a[0].len() == 0 {
            assert(drop_empty(a + b) =~= drop_empty(a) + drop_empty(b));
        } else {
            assert(drop_empty(a + b) =~= drop_empty(a) + drop_empty(b));
        }
    }
}

/// The nonempty lines of a header block: the block cut at every `\r\n`,
/// with blank lines discarded.
pub open spec fn header_lines(s: Seq<char>) -> Seq<Seq<char>> {
    drop_empty(split_crlf(s))
}

/// Cuts a header block into its nonempty lines.
pub fn split_header_lines<'a>(s: &'a str) -> (r: Vec<&'a str>)
    ensures
        views(r@) == header_lines(s@),
        forall|k: int| 0 <= k < r@.len() ==> views(r@)[k].len() > 0 && !has_crlf(views(r@)[k]),
{
    let n = s.unicode_len();
    let mut out: Vec<&str> = Vec::new();
    let mut start: usize = 0;
    let mut i: usize = 0;
    let stop: usize = if n == 0 {
        0
    } else {
        n - 1
    };
    proof {
        assert(s@.subrange(0, n as int) =~= s@);
    }
    while i < stop
        invariant
            n == s@.len(),
            stop == if n == 0 { 0int } else { n - 1 },
            0 <= start <= i <= n,
            forall|j: int|
                start <= j < i && j + 1 < n ==> !(#[trigger] s@[j] == '\r' && s@[j + 1] == '\n'),
            header_lines(s@) =~~= views(out@) + drop_empty(
                split_crlf(s@.subrange(start as int, n as int)),
            ),
            forall|k: int| 0 <= k < out@.len() ==> views(out@)[k].len() > 0 && !has_crlf(
                views(out@)[k],
            ),
        decreases n - i,
    {
        if s.get_char(i) == '\r' && s.get_char(i + 1) == '\n' {
            let line = s.substring_char(start, i);
            proof {
                let tail = s@.subrange(start as int, n as int);
                let rest = s@.subrange(i + 2, n as int);
                lemma_has_crlf_iff(line@);
                assert(!has_crlf(line@));
                assert(tail =~= line@ + seq!['\r', '\n'] + rest);
                lemma_split_crlf_line(line@, rest);
                lemma_drop_empty_append(seq![line@], split_crlf(rest));
                assert(drop_empty(split_crlf(tail)) =~~= drop_empty(seq![line@]) + drop_empty(
                    split_crlf(rest),
                ));
            }
            proof {
                assert(seq![line@].drop_first().len() == 0);
                assert(drop_empty(seq![line@].drop_first()) =~= Seq::<Seq<char>>::empty());
            }
            if i > start {
                proof {
                    assert(drop_empty(seq![line@]) =~= seq![line@]);
                    assert(views(out@.push(line)) =~= views(out@) + seq![line@]);
                }
                out.push(line);
            } else {
                proof {
                    assert(drop_empty(seq![line@]) =~= Seq::<Seq<char>>::empty());
                }
            }
            start = i + 2;
            i = i + 2;
        } else {
            i = i + 1;
        }
    }
    let line = s.substring_char(start, n);
    proof {
        lemma_has_crlf_iff(line@);
        assert(line@ =~= s@.subrange(start as int, n as int));
        assert(!has_crlf(line@));
        lemma_split_crlf_whole(line@);
        assert(seq![line@].drop_first().len() == 0);
        assert(drop_empty(seq![line@].drop_first()) =~= Seq::<Seq<char>>::empty());
        assert(drop_empty(seq![line@]) =~= if line@.len() == 0 {
            Seq::<Seq<char>>::empty()
        } else {
            seq![line@]
        });
    }
    if n > start {
        proof {
            assert(views(out@.push(line)) =~= views(out@) + seq![line@]);
        }
        out.push(line);
    }
    proof {
        assert(views(out@) =~~= header_lines(s@));
    }
    out
}

} // verus!
