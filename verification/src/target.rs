//! The target resolver: turns a raw request target into a normalized,
//! traversal-safe path relative to the server root, plus a re-encoded query
//! string. The path component is percent-decoded and its `.` and `..`
//! segments are resolved against a virtual root, so the result can never
//! name anything above that root — proved below, not merely tested.

use vstd::prelude::*;

use crate::chars::{push_char, find_char, str_find_char, str_eq};
use vstd::utf8::{decode_utf8, encode_utf8, valid_utf8};
use crate::lex::{split_at_char, split_tokens, views, lemma_split_at_char_token,
    lemma_split_at_char_whole, lemma_split_at_char_len};

verus! {

/// The value of a hexadecimal digit character, either case.
pub open spec fn hex_val(c: char) -> Option<u8> {
    if '0' <= c && c <= '9' {
        Some((c as u32 - '0' as u32) as u8)
    } else if 'a' <= c && c <= 'f' {
        Some((c as u32 - 'a' as u32 + 10) as u8)
    } else if 'A' <= c && c <= 'F' {
        Some((c as u32 - 'A' as u32 + 10) as u8)
    } else {
        None
    }
}

/// Executable hexadecimal digit value.
pub fn hex_digit(c: char) -> (r: Option<u8>)
    ensures
        r == hex_val(c),
{
    let v = c as u32;
    if v >= 48 && v <= 57 {
        Some((v - 48) as u8)
    } else if v >= 97 && v <= 102 {
        Some((v - 97 + 10) as u8)
    } else if v >= 65 && v <= 70 {
        Some((v - 65 + 10) as u8)
    } else {
        None
    }
}

/// Percent-decoding of a path, to bytes: a `%` followed by two hexadecimal
/// digits becomes the named byte, any other character contributes its UTF-8
/// encoding; an incomplete escape passes through unchanged.
pub open spec fn pct_decode_bytes(s: Seq<char>) -> Seq<u8>
    decreases s.len(),
{
    if s.len() == 0 {
        Seq::empty()
    } else if s[0] == '%' && s.len() >= 3 && hex_val(s[1]) is Some && hex_val(s[2]) is Some {
        seq![(hex_val(s[1])->Some_0 * 16 + hex_val(s[2])->Some_0) as u8] + pct_decode_bytes(
            s.skip(3),
        )
    } else {
        encode_utf8(seq![s[0]]) + pct_decode_bytes(s.drop_first())
    }
}

/// Percent-decoding of a path: the decoded bytes read back as characters.
/// `None` exactly when the decoded bytes are not valid UTF-8.
pub open spec fn pct_decode(s: Seq<char>) -> Option<Seq<char>> {
    if valid_utf8(pct_decode_bytes(s)) {
        Some(decode_utf8(pct_decode_bytes(s)))
    } else {
        None
    }
}

/// Resolution of `.` and `..` segments against a virtual root: empty and
/// `.` segments vanish, `..` pops the last kept segment (never more than
/// was kept — at the root it is simply dropped), anything else is kept.
pub open spec fn collapse_segs(segs: Seq<Seq<char>>, acc: Seq<Seq<char>>) -> Seq<Seq<char>>
    decreases segs.len(),
{
    if segs.len() == 0 {
        acc
    } else {
        let s0 = segs[0];
        let acc1 = if s0.len() == 0 || s0 == "."@ {
            acc
        } else if s0 == ".."@ {
            if acc.len() > 0 {
                acc.drop_last()
            } else {
                acc
            }
        } else {
            acc.push(s0)
        };
        collapse_segs(segs.drop_first(), acc1)
    }
}

/// Joining path segments with `/`.
pub open spec fn join_slash(segs: Seq<Seq<char>>) -> Seq<char>
    decreases segs.len(),
{
    if segs.len() == 0 {
        Seq::empty()
    } else if segs.len() == 1 {
        segs[0]
    } else {
        segs[0] + seq!['/'] + join_slash(segs.drop_first())
    }
}

/// The characters this resolver re-encodes in a query string: controls,
/// space, and the quoting characters a query must not carry raw.
pub open spec fn needs_query_escape(c: char) -> bool {
    (c as u32) < 32 || c == ' ' || c == '"' || c == '<' || c == '>' || c == '\'' || (c as u32)
        == 127
}

/// The upper-case hexadecimal digit of a value below sixteen.
pub open spec fn hex_digit_upper(d: u32) -> char {
    if d < 10 {
        (('0' as u32) + d) as char
    } else {
        (('A' as u32) + (d - 10)) as char
    }
}

/// Percent-encoding of a query string: characters in the escape set become
/// `%XX` with upper-case digits, everything else (existing escapes
/// included) passes through untouched.
pub open spec fn encode_query(s: Seq<char>) -> Seq<char>
    decreases s.len(),
{
    if s.len() == 0 {
        Seq::empty()
    } else {
        let head = if needs_query_escape(s[0]) {
            seq!['%', hex_digit_upper((s[0] as u32) / 16), hex_digit_upper((s[0] as u32) % 16)]
        } else {
            seq![s[0]]
        };
        head + encode_query(s.drop_first())
    }
}

/// What resolving a raw target yields: the part before the first `?` (or
/// `#`) percent-decoded and collapsed to a root-relative path, and the part
/// between `?` and `#` re-encoded as the query. `None` exactly when the
/// path decodes to bytes that are not valid UTF-8.
pub open spec fn spec_resolve_target(s: Seq<char>) -> Option<(Seq<char>, Seq<char>)> {
    let before_hash = match find_char(s, '#') {
        Some(h) => s.subrange(0, h),
        None => s,
    };
    let (raw_path, raw_query) = match find_char(before_hash, '?') {
        Some(q) => (
            before_hash.subrange(0, q),
            before_hash.subrange(q + 1, before_hash.len() as int),
        ),
        None => (before_hash, Seq::<char>::empty()),
    };
    match pct_decode(raw_path) {
        None => None,
        Some(decoded) => Some(
            (
                join_slash(collapse_segs(split_at_char(decoded, '/'), Seq::empty())),
                encode_query(raw_query),
            ),
        ),
    }
}

/// A sequence without path separators.
pub open spec fn no_slash(t: Seq<char>) -> bool {
    forall|i: int| 0 <= i < t.len() ==> t[i] != '/'
}

/// A path segment that cannot move the path out of its root: nonempty,
/// separator-free, and not a dot segment.
pub open spec fn seg_ok(t: Seq<char>) -> bool {
    t.len() > 0 && t != "."@ && t != ".."@ && no_slash(t)
}

/// Confinement: a path that cannot escape the root it is resolved against —
/// it is relative (no segment is empty, so it cannot begin with `/`) and
/// holds no `.` or `..` segment.
pub open spec fn confined(p: Seq<char>) -> bool {
    p.len() == 0 || forall|k: int|
        0 <= k < split_at_char(p, '/').len() ==> seg_ok(#[trigger] split_at_char(p, '/')[k])
}

/// Every segment the collapse keeps is a confining segment, provided what
/// was already kept is.
proof fn lemma_collapse_good(segs: Seq<Seq<char>>, acc: Seq<Seq<char>>)
    requires
        forall|k: int| 0 <= k < segs.len() ==> no_slash(#[trigger] segs[k]),
        forall|k: int| 0 <= k < acc.len() ==> seg_ok(#[trigger] acc[k]),
    ensures
        forall|k: int|
            0 <= k < collapse_segs(segs, acc).len() ==> seg_ok(
                #[trigger] collapse_segs(segs, acc)[k],
            ),
    decreases segs.len(),
{
    if segs.len() > 0 {
        let s0 = segs[0];
        let acc1 = if s0.len() == 0 || s0 == "."@ {
            acc
        } else if s0 == ".."@ {
            if acc.len() > 0 {
                acc.drop_last()
            } else {
                acc
            }
        } else {
            acc.push(s0)
        };
        assert forall|k: int| 0 <= k < acc1.len() implies seg_ok(#[trigger] acc1[k]) by {
            if s0.len() == 0 || s0 == "."@ || s0 == ".."@ {
                assert(acc1[k] == acc[k]);
            } else if k < acc.len() {
                assert(acc1[k] == acc[k]);
            } else {
                assert(acc1[k] == s0);
                assert(no_slash(s0));
            }
        }
        assert(forall|k: int|
            0 <= k < segs.drop_first().len() ==> #[trigger] segs.drop_first()[k] == segs[k + 1]);
        lemma_collapse_good(segs.drop_first(), acc1);
        assert(collapse_segs(segs, acc) == collapse_segs(segs.drop_first(), acc1));
        assert forall|k: int| 0 <= k < collapse_segs(segs, acc).len() implies seg_ok(
            #[trigger] collapse_segs(segs, acc)[k],
        ) by {
            assert(collapse_segs(segs, acc)[k] == collapse_segs(segs.drop_first(), acc1)[k]);
        }
    } else {
        assert forall|k: int| 0 <= k < collapse_segs(segs, acc).len() implies seg_ok(
            #[trigger] collapse_segs(segs, acc)[k],
        ) by {
            assert(collapse_segs(segs, acc)[k] == acc[k]);
        }
    }
}

/// Joining good segments splits back into exactly those segments.
proof fn lemma_join_split(segs: Seq<Seq<char>>)
    requires
        segs.len() > 0,
        forall|k: int| 0 <= k < segs.len() ==> seg_ok(#[trigger] segs[k]),
    ensures
        split_at_char(join_slash(segs), '/') == segs,
    decreases segs.len(),
{
    if segs.len() == 1 {
        lemma_split_at_char_whole(segs[0], '/');
        assert(split_at_char(join_slash(segs), '/') =~~= segs);
    } else {
        assert(forall|k: int|
            0 <= k < segs.drop_first().len() ==> #[trigger] segs.drop_first()[k] == segs[k + 1]);
        lemma_join_split(segs.drop_first());
        lemma_split_at_char_token(segs[0], join_slash(segs.drop_first()), '/');
        assert(join_slash(segs) =~= segs[0] + seq!['/'] + join_slash(segs.drop_first()));
        assert(split_at_char(join_slash(segs), '/') =~~= segs);
    }
}

/// The resolved path of any accepted target is confined: relative, with no
/// `.` or `..` segment left, whatever dot segments the raw target held.
pub proof fn lemma_resolved_target_confined(s: Seq<char>)
    requires
        spec_resolve_target(s) is Some,
    ensures
        confined(spec_resolve_target(s)->Some_0.0),
{
    let before_hash = match find_char(s, '#') {
        Some(h) => s.subrange(0, h),
        None => s,
    };
    let raw_path = match find_char(before_hash, '?') {
        Some(q) => before_hash.subrange(0, q),
        None => before_hash,
    };
    let decoded = pct_decode(raw_path)->Some_0;
    let segs = split_at_char(decoded, '/');
    lemma_split_tokens_no_sep(decoded, '/');
    assert forall|k: int| 0 <= k < segs.len() implies no_slash(#[trigger] segs[k]) by {
        assert(forall|i: int| 0 <= i < (segs[k]).len() ==> #[trigger] segs[k][i] != '/');
    }
    let kept = collapse_segs(segs, Seq::empty());
    lemma_collapse_good(segs, Seq::empty());
    let p = join_slash(kept);
    if kept.len() == 0 {
        assert(p.len() == 0);
    } else {
        lemma_join_split(kept);
    }
}

/// Every token of a split is free of the separator.
proof fn lemma_split_tokens_no_sep(s: Seq<char>, sep: char)
    ensures
        forall|k: int|
            0 <= k < split_at_char(s, sep).len() ==> forall|i: int|
                0 <= i < (#[trigger] split_at_char(s, sep)[k]).len()
                    ==> #[trigger] split_at_char(s, sep)[k][i] != sep,
    decreases s.len(),
{
    let ts = split_at_char(s, sep);
    if s.len() == 0 {
        assert(ts[0].len() == 0);
    } else {
        lemma_split_tokens_no_sep(s.drop_first(), sep);
        let r = split_at_char(s.drop_first(), sep);
        lemma_split_at_char_len(s.drop_first(), sep);
        if s[0] == sep {
            assert forall|k: int| 0 <= k < ts.len() implies forall|i: int|
                0 <= i < (#[trigger] ts[k]).len() ==> #[trigger] ts[k][i] != sep by {
                if k == 0 {
                    assert(ts[0].len() == 0);
                } else {
                    assert(ts[k] == r[k - 1]);
                }
            }
        } else {
            assert forall|k: int| 0 <= k < ts.len() implies forall|i: int|
                0 <= i < (#[trigger] ts[k]).len() ==> #[trigger] ts[k][i] != sep by {
                if k == 0 {
                    let t0 = ts[0];
                    assert(t0 =~= seq![s[0]] + r[0]);
                    assert forall|i: int| 0 <= i < t0.len() implies #[trigger] t0[i] != sep by {
                        if i > 0 {
                            assert(t0[i] == r[0][i - 1]);
                        }
                    }
                } else {
                    assert(ts[k] == r[k]);
                }
            }
        }
    }
}

/// Relies on `String::from_utf8`: accepts exactly the valid UTF-8 byte
/// sequences and decodes them to their characters.
#[verifier::external_body]
fn string_from_utf8(bytes: Vec<u8>) -> (r: Option<String>)
    ensures
        match r {
            Some(d) => valid_utf8(bytes@) && d@ == decode_utf8(bytes@),
            None => !valid_utf8(bytes@),
        },
{
    String::from_utf8(bytes).ok()
}

/// Decodes the percent escapes of a path component to bytes.
fn pct_decode_to_bytes(s: &str) -> (r: Vec<u8>)
    ensures
        r@ == pct_decode_bytes(s@),
{
    let n = s.unicode_len();
    let mut out: Vec<u8> = Vec::new();
    let mut i: usize = 0;
    proof {
        assert(s@.skip(0) =~= s@);
        assert(out@ + pct_decode_bytes(s@.skip(0)) =~= pct_decode_bytes(s@));
    }
    while i < n
        invariant
            n == s@.len(),
            0 <= i <= n,
            pct_decode_bytes(s@) == out@ + pct_decode_bytes(s@.skip(i as int)),
        decreases n - i,
    {
        let c = s.get_char(i);
        proof {
            assert(s@.skip(i as int)[0] == s@[i as int]);
        }
        let mut took_escape = false;
        if c == '%' && n - i >= 3 {
            proof {
                assert(s@.skip(i as int)[1] == s@[i + 1]);
                assert(s@.skip(i as int)[2] == s@[i + 2]);
            }
            let h1 = hex_digit(s.get_char(i + 1));
            let h2 = hex_digit(s.get_char(i + 2));
            if let (Some(a), Some(b)) = (h1, h2) {
                assert(a <= 15 && b <= 15);
                let byte = a * 16 + b;
                out.push(byte);
                proof {
                    assert(s@.skip(i as int).skip(3) =~= s@.skip(i + 3));
                    assert(out@ + pct_decode_bytes(s@.skip(i + 3)) =~= out@.drop_last() + (seq![
                        byte,
                    ] + pct_decode_bytes(s@.skip(i + 3))));
                }
                took_escape = true;
                i = i + 3;
            }
        }
        if !took_escape {
            let ghost prev = out@;
            let one = s.substring_char(i, i + 1);
            let mut piece = one.as_bytes_vec();
            proof {
                assert(one@ =~= seq![s@[i as int]]);
            }
            out.append(&mut piece);
            proof {
                assert(s@.skip(i as int).drop_first() =~= s@.skip(i + 1));
                assert(out@ + pct_decode_bytes(s@.skip(i + 1)) =~= prev + (encode_utf8(seq![
                    s@[i as int],
                ]) + pct_decode_bytes(s@.skip(i + 1))));
            }
            i = i + 1;
        }
    }
    proof {
        assert(s@.skip(n as int).len() == 0);
        assert(pct_decode_bytes(s@.skip(n as int)) =~= Seq::<u8>::empty());
        assert(out@ + Seq::<u8>::empty() =~= out@);
    }
    out
}

/// Decodes the percent escapes of a path component: escapes become bytes,
/// and the decoded byte sequence must read back as UTF-8 text.
fn pct_decode_str(s: &str) -> (r: Result<String, ()>)
    ensures
        match r {
            Ok(d) => pct_decode(s@) == Some(d@),
            Err(_) => pct_decode(s@) is None,
        },
{
    let bytes = pct_decode_to_bytes(s);
    match string_from_utf8(bytes) {
        Some(d) => Ok(d),
        None => Err(()),
    }
}

/// Appending one more segment to a joined path adds one separator and the
/// segment.
proof fn lemma_join_take(segs: Seq<Seq<char>>, k: int)
    requires
        1 <= k < segs.len(),
    ensures
        join_slash(segs.take(k + 1)) == join_slash(segs.take(k)) + seq!['/'] + segs[k],
    decreases k,
{
    if k == 1 {
        assert(segs.take(2).drop_first() =~= seq![segs[1]]);
        assert(join_slash(seq![segs[1]]) == segs[1]);
        assert(segs.take(2)[0] == segs[0]);
        assert(join_slash(segs.take(1)) == segs[0]);
        assert(join_slash(segs.take(2)) =~= join_slash(segs.take(1)) + seq!['/'] + segs[1]);
    } else {
        lemma_join_take(segs.drop_first(), k - 1);
        assert(segs.take(k + 1).drop_first() =~= segs.drop_first().take(k));
        assert(segs.take(k).drop_first() =~= segs.drop_first().take(k - 1));
        assert(segs.take(k + 1)[0] == segs[0]);
        assert(segs.take(k)[0] == segs[0]);
        assert(segs.drop_first()[k - 1] == segs[k]);
        assert(join_slash(segs.take(k + 1)) =~= join_slash(segs.take(k)) + seq!['/'] + segs[k]);
    }
}

/// Joins the kept segments with `/`.
fn join_segments(stack: &Vec<&str>) -> (r: String)
    ensures
        r@ == join_slash(views(stack@)),
{
    let n = stack.len();
    let mut out = String::new();
    if n == 0 {
        return out;
    }
    out.append(stack[0]);
    proof {
        reveal_strlit("/");
        assert(views(stack@).take(1) =~= seq![stack@[0]@]);
        assert(join_slash(views(stack@).take(1)) == stack@[0]@);
        assert(out@ =~= stack@[0]@);
    }
    let mut k: usize = 1;
    while k < n
        invariant
            n == stack@.len(),
            1 <= k <= n,
            out@ == join_slash(views(stack@).take(k as int)),
        decreases n - k,
    {
        out.append("/");
        out.append(stack[k]);
        proof {
            reveal_strlit("/");
            assert("/"@ =~= seq!['/']);
            lemma_join_take(views(stack@), k as int);
            assert(views(stack@)[k as int] == stack@[k as int]@);
            assert(out@ =~= join_slash(views(stack@).take(k + 1)));
        }
        k = k + 1;
    }
    proof {
        assert(views(stack@).take(n as int) =~= views(stack@));
    }
    out
}

/// Re-encodes a query string: the escape-set characters become `%XX`,
/// everything else passes through untouched.
fn encode_query_str(q: &str) -> (r: String)
    ensures
        r@ == encode_query(q@),
{
    let n = q.unicode_len();
    let mut out = String::new();
    let mut i: usize = 0;
    proof {
        assert(q@.skip(0) =~= q@);
        assert(out@ + encode_query(q@.skip(0)) =~= encode_query(q@));
    }
    while i < n
        invariant
            n == q@.len(),
            0 <= i <= n,
            encode_query(q@) == out@ + encode_query(q@.skip(i as int)),
        decreases n - i,
    {
        let c = q.get_char(i);
        proof {
            assert(q@.skip(i as int)[0] == q@[i as int]);
            assert(q@.skip(i as int).drop_first() =~= q@.skip(i + 1));
        }
        let v = c as u32;
        if v < 32 || c == ' ' || c == '"' || c == '<' || c == '>' || c == '\'' || v == 127 {
            let hi = (v / 16) as u8;
            let lo = (v % 16) as u8;
            let hic: char = if hi < 10 {
                (48 + hi) as char
            } else {
                (65 + (hi - 10)) as char
            };
            let loc: char = if lo < 10 {
                (48 + lo) as char
            } else {
                (65 + (lo - 10)) as char
            };
            assert(hic == hex_digit_upper(v / 16));
            assert(loc == hex_digit_upper(v % 16));
            push_char(&mut out, '%');
            push_char(&mut out, hic);
            push_char(&mut out, loc);
            proof {
                assert(out@ =~= out@.drop_last().drop_last().drop_last() + seq![
                    '%',
                    hex_digit_upper((c as u32) / 16),
                    hex_digit_upper((c as u32) % 16),
                ]);
                assert(out@ + encode_query(q@.skip(i + 1)) =~= out@.drop_last().drop_last()
                    .drop_last() + encode_query(q@.skip(i as int)));
            }
        } else {
            push_char(&mut out, c);
            proof {
                assert(out@ + encode_query(q@.skip(i + 1)) =~= out@.drop_last() + encode_query(
                    q@.skip(i as int),
                ));
            }
        }
        i = i + 1;
    }
    proof {
        assert(q@.skip(n as int).len() == 0);
        assert(encode_query(q@.skip(n as int)) =~= Seq::<char>::empty());
        assert(out@ + Seq::<char>::empty() =~= out@);
    }
    out
}

/// A resolved request target: a normalized path relative to the server root
/// and the (re-encoded) query string.
#[derive(Debug)]
pub struct Target {
    pub path: String,
    pub query_str: String,
}

impl Target {
    /// Resolves a raw request target. The fragment (from the first `#`) is
    /// discarded; the path (before the first `?`) is percent-decoded and its
    /// dot segments collapsed against a virtual root; the query (between `?`
    /// and `#`) is kept, re-encoded. The resolved path is confined: it can
    /// never name anything above the root. Fails exactly when the decoded
    /// path is not valid UTF-8.
    pub fn from_str(s: &str) -> (r: Result<Target, ()>)
        ensures
            match r {
                Ok(t) => spec_resolve_target(s@) == Some((t.path@, t.query_str@)) && confined(
                    t.path@,
                ),
                Err(_) => spec_resolve_target(s@) is None,
            },
    {
        let n = s.unicode_len();
        proof {
            crate::chars::lemma_find_char(s@, '#');
        }
        let h = match str_find_char(s, '#') {
            Some(h) => h,
            None => n,
        };
        let before_hash = s.substring_char(0, h);
        proof {
            assert(s@.subrange(0, n as int) =~= s@);
        }
        let bn = h;
        proof {
            crate::chars::lemma_find_char(before_hash@, '?');
        }
        let (raw_path, raw_query) = match str_find_char(before_hash, '?') {
            Some(q) => (
                before_hash.substring_char(0, q),
                before_hash.substring_char(q + 1, bn),
            ),
            None => (before_hash, ""),
        };
        proof {
            reveal_strlit("");
            assert(before_hash@.subrange(0, bn as int) =~= before_hash@);
        }
        let decoded = match pct_decode_str(raw_path) {
            Ok(d) => d,
            Err(_) => {
                return Err(());
            },
        };
        let segs = split_tokens(decoded.as_str(), '/');
        let m = segs.len();
        let mut stack: Vec<&str> = Vec::new();
        let mut i: usize = 0;
        proof {
            assert(views(segs@).skip(0) =~= views(segs@));
            assert(views(stack@) =~= Seq::<Seq<char>>::empty());
        }
        while i < m
            invariant
                m == segs@.len(),
                0 <= i <= m,
                collapse_segs(views(segs@).skip(i as int), views(stack@)) == collapse_segs(
                    views(segs@),
                    Seq::empty(),
                ),
            decreases m - i,
        {
            let seg = segs[i];
            proof {
                assert(views(segs@).skip(i as int)[0] == views(segs@)[i as int]);
                assert(views(segs@)[i as int] == segs@[i as int]@);
                assert(views(segs@).skip(i as int).drop_first() =~= views(segs@).skip(i + 1));
            }
            if seg.unicode_len() == 0 || str_eq(seg, ".") {
            } else if str_eq(seg, "..") {
                if stack.len() > 0 {
                    let ghost prev = views(stack@);
                    stack.pop();
                    proof {
                        assert(views(stack@) =~= prev.drop_last());
                    }
                }
            } else {
                let ghost prev = views(stack@);
                stack.push(seg);
                proof {
                    assert(views(stack@) =~= prev.push(seg@));
                }
            }
            i = i + 1;
        }
        let path = join_segments(&stack);
        let query_str = encode_query_str(raw_query);
        proof {
            assert(views(segs@).skip(m as int).len() == 0);
            lemma_resolved_target_confined(s@);
        }
        Ok(Target { path, query_str })
    }
}

} // verus!
