//! The codec's round-trip law: rendering a parsed request header and parsing
//! it again yields the same header, so a formatted message is
//! field-set-equivalent to the byte stream it was parsed from.

use vstd::prelude::*;

use crate::chars::{is_space, lower, lower_char, trim, trim_start, trim_end, find_char,
    lemma_find_char_at, lemma_trim_trimmed, starts_with};
use crate::lex::{has_crlf, lemma_has_crlf_iff, split_at_char, split_crlf, drop_empty,
    header_lines, lemma_split_at_char_token, lemma_split_at_char_whole, lemma_split_crlf_line,
    lemma_drop_empty_append, lemma_split_at_char_len, lemma_split_crlf_len};
use crate::http::{Error, HeaderModel, StartModel, ReqLineModel, HttpVersion, HttpMethod,
    fmt_header, fmt_fields, fmt_field, fmt_start_line, fmt_request_line, fmt_version, fmt_method,
    spec_parse_header, spec_parse_start_line, spec_parse_request_line, spec_parse_field,
    spec_parse_version, spec_parse_method, parse_fields, insert_field};

verus! {

/// A request target as the parser itself produces it: free of spaces (it was
/// one token of the start line) and of `\r\n` pairs (it sat inside one line).
pub open spec fn wf_target(t: Seq<char>) -> bool {
    (forall|i: int| 0 <= i < t.len() ==> t[i] != ' ') && !has_crlf(t)
}

/// A field name as the parser produces it: free of whitespace (checked), of
/// colons (it precedes the first one) and of upper-case ASCII (lower-cased).
pub open spec fn wf_name(n: Seq<char>) -> bool {
    forall|i: int|
        0 <= i < n.len() ==> !is_space(#[trigger] n[i]) && n[i] != ':' && !('A' <= n[i] && n[i]
            <= 'Z')
}

/// A field value as the parser produces it: trimmed, and free of `\r\n`
/// pairs (it sat inside one line).
pub open spec fn wf_value(v: Seq<char>) -> bool {
    (v.len() > 0 ==> !is_space(v[0]) && !is_space(v.last())) && !has_crlf(v)
}

/// A request header as the parser produces it: a request start line with a
/// well-formed target, and well-formed field entries under distinct names.
pub open spec fn wf_request_header(h: HeaderModel) -> bool {
    &&& h.start is Request
    &&& wf_target(h.start->Request_0.target)
    &&& forall|i: int|
        0 <= i < h.fields.len() ==> wf_name((#[trigger] h.fields[i]).0) && wf_value(h.fields[i].1)
    &&& forall|i: int, j: int|
        0 <= i < j < h.fields.len() ==> (#[trigger] h.fields[i]).0 != (#[trigger] h.fields[j]).0
}

/// A `\r\n` pair inside a piece of a sequence is a pair of the whole.
proof fn lemma_no_crlf_subrange(s: Seq<char>, a: int, b: int)
    requires
        !has_crlf(s),
        0 <= a <= b <= s.len(),
    ensures
        !has_crlf(s.subrange(a, b)),
{
    lemma_has_crlf_iff(s);
    lemma_has_crlf_iff(s.subrange(a, b));
    if has_crlf(s.subrange(a, b)) {
        let j = choose|j: int|
            0 <= j && j + 1 < s.subrange(a, b).len() && s.subrange(a, b)[j] == '\r'
                && #[trigger] s.subrange(a, b)[j + 1] == '\n';
        assert(s[a + j] == '\r');
        assert(s[(a + j) + 1] == '\n');
    }
}

proof fn lemma_trim_start_no_crlf(s: Seq<char>)
    requires
        !has_crlf(s),
    ensures
        !has_crlf(trim_start(s)),
    decreases s.len(),
{
    if s.len() > 0 && is_space(s[0]) {
        if s.len() >= 2 {
            lemma_trim_start_no_crlf(s.drop_first());
        } else {
            assert(trim_start(s.drop_first()) =~= s.drop_first());
        }
    }
}

proof fn lemma_trim_end_no_crlf(s: Seq<char>)
    requires
        !has_crlf(s),
    ensures
        !has_crlf(trim_end(s)),
    decreases s.len(),
{
    if s.len() > 0 && is_space(s.last()) {
        assert(s.drop_last() =~= s.subrange(0, s.len() - 1));
        lemma_no_crlf_subrange(s, 0, s.len() - 1);
        lemma_trim_end_no_crlf(s.drop_last());
    }
}

/// Trimming keeps a value free of `\r\n` pairs.
proof fn lemma_trim_no_crlf(s: Seq<char>)
    requires
        !has_crlf(s),
    ensures
        !has_crlf(trim(s)),
{
    lemma_trim_start_no_crlf(s);
    lemma_trim_end_no_crlf(trim_start(s));
}

/// The first token of a split is, character for character, the front of the
/// input.
proof fn lemma_split_at_char_first_prefix(s: Seq<char>, sep: char)
    ensures
        split_at_char(s, sep)[0].len() <= s.len(),
        forall|i: int|
            0 <= i < split_at_char(s, sep)[0].len() ==> #[trigger] split_at_char(s, sep)[0][i]
                == s[i],
    decreases s.len(),
{
    if s.len() == 0 {
    } else if s[0] == sep {
    } else {
        lemma_split_at_char_first_prefix(s.drop_first(), sep);
        let r = split_at_char(s.drop_first(), sep);
        lemma_split_at_char_len(s.drop_first(), sep);
        assert(split_at_char(s, sep)[0] =~= seq![s[0]] + r[0]);
        assert(forall|i: int|
            0 <= i < s.drop_first().len() ==> #[trigger] s.drop_first()[i] == s[i + 1]);
    }
}

/// Every token of a split is free of the separator and, when the input holds
/// no `\r\n` pair, free of such pairs too.
proof fn lemma_split_at_char_tokens(s: Seq<char>, sep: char)
    requires
        !has_crlf(s),
    ensures
        forall|k: int|
            0 <= k < split_at_char(s, sep).len() ==> (forall|i: int|
                0 <= i < split_at_char(s, sep)[k].len() ==> #[trigger] split_at_char(s, sep)[k][i]
                    != sep) && !has_crlf(#[trigger] split_at_char(s, sep)[k]),
    decreases s.len(),
{
    let ts = split_at_char(s, sep);
    if s.len() == 0 {
        assert(ts[0].len() == 0);
    } else {
        if s.len() >= 2 {
            assert(!has_crlf(s.drop_first()));
        } else {
            assert(!has_crlf(s.drop_first()));
        }
        lemma_split_at_char_tokens(s.drop_first(), sep);
        let r = split_at_char(s.drop_first(), sep);
        lemma_split_at_char_len(s.drop_first(), sep);
        if s[0] == sep {
            assert forall|k: int| 0 <= k < ts.len() implies (forall|i: int|
                0 <= i < ts[k].len() ==> #[trigger] ts[k][i] != sep) && !has_crlf(
                #[trigger] ts[k],
            ) by {
                if k == 0 {
                    assert(ts[0].len() == 0);
                } else {
                    assert(ts[k] == r[k - 1]);
                }
            }
        } else {
            lemma_split_at_char_first_prefix(s.drop_first(), sep);
            assert forall|k: int| 0 <= k < ts.len() implies (forall|i: int|
                0 <= i < ts[k].len() ==> #[trigger] ts[k][i] != sep) && !has_crlf(
                #[trigger] ts[k],
            ) by {
                if k == 0 {
                    let t0 = ts[0];
                    assert(t0 =~= seq![s[0]] + r[0]);
                    assert(forall|i: int| 0 <= i < t0.len() ==> #[trigger] t0[i] == s[i]);
                    assert forall|i: int| 0 <= i < t0.len() implies #[trigger] t0[i] != sep by {
                        if i == 0 {
                        } else {
                            assert(t0[i] == r[0][i - 1]);
                        }
                    }
                    lemma_has_crlf_iff(t0);
                    lemma_has_crlf_iff(s);
                    if has_crlf(t0) {
                        let j = choose|j: int|
                            0 <= j && j + 1 < t0.len() && t0[j] == '\r' && #[trigger] t0[j + 1]
                                == '\n';
                        assert(s[j] == '\r');
                        assert(s[j + 1] == '\n');
                    }
                } else {
                    assert(ts[k] == r[k]);
                }
            }
        }
    }
}

/// The corresponding fact for lines: every line of a `\r\n` split is itself
/// free of `\r\n` pairs.
proof fn lemma_split_crlf_lines(s: Seq<char>)
    ensures
        forall|k: int| 0 <= k < split_crlf(s).len() ==> !has_crlf(#[trigger] split_crlf(s)[k]),
    decreases s.len(),
{
    let ls = split_crlf(s);
    if s.len() < 2 {
        assert forall|k: int| 0 <= k < ls.len() implies !has_crlf(#[trigger] ls[k]) by {
            assert(ls[k] == s);
        }
    } else if s[0] == '\r' && s[1] == '\n' {
        lemma_split_crlf_lines(s.skip(2));
        let r = split_crlf(s.skip(2));
        assert forall|k: int| 0 <= k < ls.len() implies !has_crlf(#[trigger] ls[k]) by {
            if k == 0 {
                assert(ls[0].len() == 0);
            } else {
                assert(ls[k] == r[k - 1]);
            }
        }
    } else {
        lemma_split_crlf_lines(s.drop_first());
        let r = split_crlf(s.drop_first());
        lemma_split_crlf_len(s.drop_first());
        lemma_split_crlf_first_prefix(s.drop_first());
        assert forall|k: int| 0 <= k < ls.len() implies !has_crlf(#[trigger] ls[k]) by {
            if k == 0 {
                let t0 = ls[0];
                assert(t0 =~= seq![s[0]] + r[0]);
                assert(!has_crlf(r[0]));
                lemma_has_crlf_iff(t0);
                if has_crlf(t0) {
                    let j = choose|j: int|
                        0 <= j && j + 1 < t0.len() && t0[j] == '\r' && #[trigger] t0[j + 1] == '\n';
                    if j == 0 {
                        assert(t0[0] == s[0]);
                        assert(t0[1] == r[0][0]);
                        assert(r[0][0] == s.drop_first()[0]);
                        assert(s.drop_first()[0] == s[1]);
                        assert(false);
                    } else {
                        lemma_has_crlf_iff(r[0]);
                        assert(t0[j] == r[0][j - 1]);
                        assert(t0[j + 1] == r[0][j]);
                        assert(r[0][(j - 1) + 1] == '\n');
                        assert(has_crlf(r[0]));
                        assert(false);
                    }
                }
            } else {
                assert(ls[k] == r[k]);
            }
        }
    }
}

/// The first line of a `\r\n` split is, character for character, the front
/// of the input.
proof fn lemma_split_crlf_first_prefix(s: Seq<char>)
    ensures
        split_crlf(s)[0].len() <= s.len(),
        forall|i: int|
            0 <= i < split_crlf(s)[0].len() ==> #[trigger] split_crlf(s)[0][i] == s[i],
    decreases s.len(),
{
    if s.len() < 2 {
    } else if s[0] == '\r' && s[1] == '\n' {
    } else {
        lemma_split_crlf_first_prefix(s.drop_first());
        let r = split_crlf(s.drop_first());
        lemma_split_crlf_len(s.drop_first());
        assert(split_crlf(s)[0] =~= seq![s[0]] + r[0]);
        assert(forall|i: int|
            0 <= i < s.drop_first().len() ==> #[trigger] s.drop_first()[i] == s[i + 1]);
    }
}

/// Every line that `header_lines` keeps is nonempty and pair-free.
proof fn lemma_drop_empty_keeps(ls: Seq<Seq<char>>)
    requires
        forall|k: int| 0 <= k < ls.len() ==> !has_crlf(#[trigger] ls[k]),
    ensures
        forall|k: int|
            0 <= k < drop_empty(ls).len() ==> !has_crlf(#[trigger] drop_empty(ls)[k]) && drop_empty(
                ls,
            )[k].len() > 0,
    decreases ls.len(),
{
    if ls.len() > 0 {
        assert(forall|k: int|
            0 <= k < ls.drop_first().len() ==> #[trigger] ls.drop_first()[k] == ls[k + 1]);
        lemma_drop_empty_keeps(ls.drop_first());
        let r = drop_empty(ls.drop_first());
        if ls[0].len() == 0 {
        } else {
            assert forall|k: int| 0 <= k < drop_empty(ls).len() implies !has_crlf(
                #[trigger] drop_empty(ls)[k],
            ) && drop_empty(ls)[k].len() > 0 by {
                if k == 0 {
                    assert(drop_empty(ls)[0] == ls[0]);
                } else {
                    assert(drop_empty(ls)[k] == r[k - 1]);
                }
            }
        }
    }
}

/// Lower-casing a parsed field name yields a well-formed name: it stays free
/// of whitespace and colons and loses its upper-case letters.
proof fn lemma_lower_name_wf(n: Seq<char>)
    requires
        forall|i: int| 0 <= i < n.len() ==> !is_space(#[trigger] n[i]),
        forall|i: int| 0 <= i < n.len() ==> #[trigger] n[i] != ':',
    ensures
        wf_name(lower(n)),
{
    assert forall|i: int| 0 <= i < lower(n).len() implies !is_space(#[trigger] lower(n)[i])
        && lower(n)[i] != ':' && !('A' <= lower(n)[i] && lower(n)[i] <= 'Z') by {
        assert(lower(n)[i] == lower_char(n[i]));
        if 'A' <= n[i] && n[i] <= 'Z' {
            assert('a' <= lower_char(n[i]) && lower_char(n[i]) <= 'z');
        }
    }
}

/// Inserting a well-formed entry keeps the entries well-formed, the names
/// distinct, and introduces no name but the inserted one.
proof fn lemma_insert_field_wf(
    fs: Seq<(Seq<char>, Seq<char>)>,
    name: Seq<char>,
    value: Seq<char>,
)
    requires
        forall|i: int|
            0 <= i < fs.len() ==> wf_name((#[trigger] fs[i]).0) && wf_value(fs[i].1),
        forall|i: int, j: int|
            0 <= i < j < fs.len() ==> (#[trigger] fs[i]).0 != (#[trigger] fs[j]).0,
        wf_name(name),
        wf_value(value),
    ensures
        forall|i: int|
            0 <= i < insert_field(fs, name, value).len() ==> wf_name(
                (#[trigger] insert_field(fs, name, value)[i]).0,
            ) && wf_value(insert_field(fs, name, value)[i].1),
        forall|i: int, j: int|
            0 <= i < j < insert_field(fs, name, value).len() ==> (#[trigger] insert_field(
                fs,
                name,
                value,
            )[i]).0 != (#[trigger] insert_field(fs, name, value)[j]).0,
        forall|i: int|
            0 <= i < insert_field(fs, name, value).len() ==> (#[trigger] insert_field(
                fs,
                name,
                value,
            )[i]).0 == name || exists|j: int|
                0 <= j < fs.len() && (#[trigger] fs[j]).0 == insert_field(fs, name, value)[i].0,
    decreases fs.len(),
{
    let out = insert_field(fs, name, value);
    if fs.len() == 0 {
    } else if fs[0].0 == name {
        assert(forall|i: int|
            0 <= i < fs.drop_first().len() ==> #[trigger] fs.drop_first()[i] == fs[i + 1]);
        assert forall|i: int| 0 <= i < out.len() implies (#[trigger] out[i]).0 == name || exists|
            j: int,
        | 0 <= j < fs.len() && (#[trigger] fs[j]).0 == out[i].0 by {
            if i > 0 {
                assert(fs[i].0 == out[i].0);
            }
        }
    } else {
        // the inserted name keeps its place deeper in the sequence
        assert(forall|i: int|
            0 <= i < fs.drop_first().len() ==> #[trigger] fs.drop_first()[i] == fs[i + 1]);
        lemma_insert_field_wf(fs.drop_first(), name, value);
        let r = insert_field(fs.drop_first(), name, value);
        assert(out =~~= seq![fs[0]] + r);
        assert forall|i: int| 0 <= i < out.len() implies (#[trigger] out[i]).0 == name || exists|
            j: int,
        | 0 <= j < fs.len() && (#[trigger] fs[j]).0 == out[i].0 by {
            if i == 0 {
                assert(fs[0].0 == out[0].0);
            } else {
                assert(out[i] == r[i - 1]);
                if r[i - 1].0 != name {
                    let j = choose|j: int|
                        0 <= j < fs.drop_first().len() && (#[trigger] fs.drop_first()[j]).0 == r[i - 1].0;
                    assert(fs[j + 1].0 == out[i].0);
                }
            }
        }
        assert forall|i: int, j: int| 0 <= i < j < out.len() implies (#[trigger] out[i]).0 != (
        #[trigger] out[j]).0 by {
            if i == 0 {
                assert(out[j] == r[j - 1]);
                if r[j - 1].0 == name {
                    assert(fs[0].0 != name);
                } else {
                    let m = choose|m: int|
                        0 <= m < fs.drop_first().len() && (#[trigger] fs.drop_first()[m]).0 == r[j - 1].0;
                    assert(fs[m + 1].0 == r[j - 1].0);
                    assert(fs[0].0 != fs[m + 1].0);
                }
            } else {
                assert(out[i] == r[i - 1]);
                assert(out[j] == r[j - 1]);
            }
        }
    }
}

/// Whatever `parse_fields` accepts is well-formed: names lower-cased,
/// whitespace- and colon-free, distinct; values trimmed and pair-free.
proof fn lemma_parse_fields_wf(lines: Seq<Seq<char>>, acc: Seq<(Seq<char>, Seq<char>)>)
    requires
        forall|k: int| 0 <= k < lines.len() ==> !has_crlf(#[trigger] lines[k]),
        forall|i: int|
            0 <= i < acc.len() ==> wf_name((#[trigger] acc[i]).0) && wf_value(acc[i].1),
        forall|i: int, j: int|
            0 <= i < j < acc.len() ==> (#[trigger] acc[i]).0 != (#[trigger] acc[j]).0,
        parse_fields(lines, acc) is Ok,
    ensures
        forall|i: int|
            0 <= i < parse_fields(lines, acc)->Ok_0.len() ==> wf_name(
                (#[trigger] parse_fields(lines, acc)->Ok_0[i]).0,
            ) && wf_value(parse_fields(lines, acc)->Ok_0[i].1),
        forall|i: int, j: int|
            0 <= i < j < parse_fields(lines, acc)->Ok_0.len() ==> (#[trigger] parse_fields(
                lines,
                acc,
            )->Ok_0[i]).0 != (#[trigger] parse_fields(lines, acc)->Ok_0[j]).0,
    decreases lines.len(),
{
    if lines.len() > 0 {
        let line = lines[0];
        let pf = spec_parse_field(line);
        let (name, value) = pf->Ok_0;
        let i = find_char(line, ':')->Some_0;
        crate::chars::lemma_find_char(line, ':');
        assert(name =~= line.subrange(0, i));
        assert(forall|j: int| 0 <= j < name.len() ==> #[trigger] name[j] != ':');
        lemma_lower_name_wf(name);
        assert(value == trim(line.subrange(i + 1, line.len() as int)));
        lemma_no_crlf_subrange(line, i + 1, line.len() as int);
        lemma_trim_no_crlf(line.subrange(i + 1, line.len() as int));
        lemma_trim_trimmed(line.subrange(i + 1, line.len() as int));
        assert(wf_value(value));
        lemma_insert_field_wf(acc, lower(name), value);
        assert(forall|k: int|
            0 <= k < lines.drop_first().len() ==> #[trigger] lines.drop_first()[k] == lines[k + 1]);
        lemma_parse_fields_wf(lines.drop_first(), insert_field(acc, lower(name), value));
    }
}

/// Whatever the header parser accepts as a request header is well-formed in
/// the sense of [`wf_request_header`].
pub proof fn lemma_parse_header_wf(s: Seq<char>)
    requires
        spec_parse_header(s) is Ok,
        spec_parse_header(s)->Ok_0.start is Request,
    ensures
        wf_request_header(spec_parse_header(s)->Ok_0),
{
    let lines = header_lines(s);
    let h = spec_parse_header(s)->Ok_0;
    lemma_split_crlf_lines(s);
    lemma_drop_empty_keeps(split_crlf(s));
    let line0 = lines[0];
    assert(!has_crlf(line0));
    let rl = h.start->Request_0;
    let ts = split_at_char(line0, ' ');
    lemma_split_at_char_tokens(line0, ' ');
    assert(rl.target == ts[1]);
    assert(wf_target(rl.target));
    assert(forall|k: int|
        0 <= k < lines.drop_first().len() ==> #[trigger] lines.drop_first()[k] == lines[k + 1]);
    lemma_parse_fields_wf(lines.drop_first(), Seq::<(Seq<char>, Seq<char>)>::empty());
}

/// The rendered field lines, one per entry.
pub open spec fn field_lines_of(fs: Seq<(Seq<char>, Seq<char>)>) -> Seq<Seq<char>> {
    fs.map_values(|p: (Seq<char>, Seq<char>)| fmt_field(p.0, p.1))
}

/// A rendered field line is nonempty and free of `\r\n` pairs.
proof fn lemma_fmt_field_clean(n: Seq<char>, v: Seq<char>)
    requires
        wf_name(n),
        wf_value(v),
    ensures
        !has_crlf(fmt_field(n, v)),
        fmt_field(n, v).len() >= 2,
{
    reveal_strlit(": ");
    let line = fmt_field(n, v);
    assert(line.len() == n.len() + 2 + v.len());
    lemma_has_crlf_iff(line);
    lemma_has_crlf_iff(v);
    if has_crlf(line) {
        let j = choose|j: int|
            0 <= j && j + 1 < line.len() && line[j] == '\r' && #[trigger] line[j + 1] == '\n';
        if j < n.len() {
            assert(line[j] == n[j]);
            assert(is_space(n[j]));
            assert(false);
        } else if j == n.len() {
            assert(line[j] == ':');
            assert(false);
        } else if j == n.len() + 1 {
            assert(line[j] == ' ');
            assert(false);
        } else {
            let m = j - n.len() - 2;
            assert(line[j] == v[m]);
            assert(line[j + 1] == v[m + 1]);
            assert(v[m + 1] == '\n');
            assert(has_crlf(v));
            assert(false);
        }
    }
}

/// Parsing a rendered field line gives back exactly its name and value.
proof fn lemma_field_round_trip(n: Seq<char>, v: Seq<char>)
    requires
        wf_name(n),
        wf_value(v),
    ensures
        spec_parse_field(fmt_field(n, v)) == Ok::<(Seq<char>, Seq<char>), Error>((n, v)),
{
    reveal_strlit(": ");
    let line = fmt_field(n, v);
    assert(line[n.len() as int] == ':');
    assert(forall|j: int| 0 <= j < n.len() ==> line[j] == #[trigger] n[j]);
    lemma_find_char_at(line, ':', n.len() as int);
    let name = line.subrange(0, n.len() as int);
    assert(name =~= n);
    let raw = line.subrange(n.len() as int + 1, line.len() as int);
    assert(raw =~= seq![' '] + v);
    assert(raw.drop_first() =~= v);
    assert(is_space(' '));
    assert(trim_start(raw) == trim_start(v));
    if v.len() > 0 {
        assert(!is_space(v[0]));
        assert(trim_start(v) == v);
        assert(!is_space(v.last()));
        assert(trim_end(v) == v);
    } else {
        assert(trim_start(v) == v);
        assert(trim_end(v) == v);
    }
    assert(trim(raw) == v);
    assert(spec_parse_field(line) =~~= Ok::<(Seq<char>, Seq<char>), Error>((n, v)));
}

/// A rendered request line is nonempty, pair-free, and parses back to the
/// request it came from; it never begins with the response marker `HTTP`.
proof fn lemma_request_line_round_trip(rl: ReqLineModel)
    requires
        wf_target(rl.target),
    ensures
        spec_parse_start_line(fmt_request_line(rl)) == Ok::<StartModel, Error>(
            StartModel::Request(rl),
        ),
        !has_crlf(fmt_request_line(rl)),
        fmt_request_line(rl).len() > 0,
{
    reveal_strlit("GET");
    reveal_strlit("HEAD");
    reveal_strlit("POST");
    reveal_strlit("HTTP");
    reveal_strlit("HTTP/1.0");
    reveal_strlit("HTTP/1.1");
    reveal_strlit(" ");
    let m = fmt_method(rl.method);
    let t = rl.target;
    let ver = fmt_version(rl.version);
    let line = fmt_request_line(rl);
    assert(line =~= m + seq![' '] + (t + seq![' '] + ver));
    // not a response marker: the method tokens differ from `HTTP` up front
    if starts_with(line, "HTTP"@) {
        let p = line.subrange(0, 4);
        assert(p == "HTTP"@);
        match rl.method {
            HttpMethod::Get => {
                assert(p[0] == 'G');
                assert(false);
            },
            HttpMethod::Head => {
                assert(p[2] == 'A');
                assert(false);
            },
            HttpMethod::Post => {
                assert(p[0] == 'P');
                assert(false);
            },
        }
    }
    // the three tokens
    assert(forall|i: int| 0 <= i < m.len() ==> #[trigger] m[i] != ' ');
    assert(forall|i: int| 0 <= i < ver.len() ==> #[trigger] ver[i] != ' ');
    lemma_split_at_char_token(m, t + seq![' '] + ver, ' ');
    lemma_split_at_char_token(t, ver, ' ');
    lemma_split_at_char_whole(ver, ' ');
    let ts = split_at_char(line, ' ');
    assert(ts =~~= seq![m, t, ver]);
    assert(spec_parse_method(m) == Ok::<HttpMethod, Error>(rl.method));
    match rl.version {
        HttpVersion::HTTP10 => {},
        HttpVersion::HTTP11 => {
            assert(("HTTP/1.1"@)[7] == '1');
            assert(("HTTP/1.0"@)[7] == '0');
            assert(ver != "HTTP/1.0"@);
        },
    }
    assert(spec_parse_version(ver) == Ok::<HttpVersion, Error>(rl.version));
    assert(spec_parse_request_line(line) =~~= Ok::<ReqLineModel, Error>(rl));
    // pair-free: no character of the line is a carriage return followed by
    // a line feed inside the target, and the fixed tokens hold neither
    lemma_has_crlf_iff(line);
    lemma_has_crlf_iff(t);
    if has_crlf(line) {
        let j = choose|j: int|
            0 <= j && j + 1 < line.len() && line[j] == '\r' && #[trigger] line[j + 1] == '\n';
        assert(forall|i: int| 0 <= i < m.len() ==> #[trigger] m[i] != '\r');
        assert(forall|i: int| 0 <= i < ver.len() ==> #[trigger] ver[i] != '\r');
        if j < m.len() + 1 {
            assert(false);
        } else if j < m.len() + 1 + t.len() {
            let k = j - m.len() - 1;
            assert(line[j] == t[k]);
            if k + 1 < t.len() {
                assert(line[j + 1] == t[k + 1]);
                assert(t[k + 1] == '\n');
                assert(has_crlf(t));
            } else {
                assert(line[j + 1] == ' ');
            }
            assert(false);
        } else {
            assert(false);
        }
    }
}

/// Parsing the rendered field lines of well-formed, distinct entries gives
/// back exactly those entries, appended to what was already collected.
proof fn lemma_fields_round_trip(fs: Seq<(Seq<char>, Seq<char>)>, acc: Seq<(Seq<char>, Seq<char>)>)
    requires
        forall|i: int|
            0 <= i < fs.len() ==> wf_name((#[trigger] fs[i]).0) && wf_value(fs[i].1),
        forall|i: int, j: int|
            0 <= i < j < fs.len() ==> (#[trigger] fs[i]).0 != (#[trigger] fs[j]).0,
        forall|i: int, j: int|
            0 <= i < acc.len() && 0 <= j < fs.len() ==> (#[trigger] acc[i]).0 != (
            #[trigger] fs[j]).0,
    ensures
        parse_fields(field_lines_of(fs), acc) == Ok::<Seq<(Seq<char>, Seq<char>)>, Error>(
            acc + fs,
        ),
    decreases fs.len(),
{
    let lines = field_lines_of(fs);
    if fs.len() == 0 {
        assert(lines.len() == 0);
        assert(acc + fs =~= acc);
    } else {
        let n0 = fs[0].0;
        let v0 = fs[0].1;
        assert(lines[0] == fmt_field(n0, v0));
        lemma_field_round_trip(n0, v0);
        crate::chars::lemma_lower_identity(n0);
        assert(lower(n0) == n0);
        assert(forall|i: int| 0 <= i < acc.len() ==> (#[trigger] acc[i]).0 != n0);
        crate::http::lemma_insert_field_missing(acc, n0, v0);
        let acc1 = acc.push((n0, v0));
        assert(insert_field(acc, n0, v0) == acc1);
        assert(forall|i: int|
            0 <= i < fs.drop_first().len() ==> #[trigger] fs.drop_first()[i] == fs[i + 1]);
        assert forall|i: int, j: int|
            0 <= i < acc1.len() && 0 <= j < fs.drop_first().len() implies (#[trigger] acc1[i]).0
            != (#[trigger] fs.drop_first()[j]).0 by {
            assert(fs.drop_first()[j] == fs[j + 1]);
            if i < acc.len() {
                assert(acc1[i] == acc[i]);
            } else {
                assert(acc1[i] == (n0, v0));
            }
        }
        lemma_fields_round_trip(fs.drop_first(), acc1);
        assert(lines.drop_first() =~= field_lines_of(fs.drop_first()));
        assert(acc1 + fs.drop_first() =~= acc + fs);
    }
}

/// Identity of `drop_empty` on all-nonempty lines.
proof fn lemma_drop_empty_identity(ls: Seq<Seq<char>>)
    requires
        forall|k: int| 0 <= k < ls.len() ==> (#[trigger] ls[k]).len() > 0,
    ensures
        drop_empty(ls) == ls,
    decreases ls.len(),
{
    if ls.len() > 0 {
        assert(forall|k: int|
            0 <= k < ls.drop_first().len() ==> #[trigger] ls.drop_first()[k] == ls[k + 1]);
        lemma_drop_empty_identity(ls.drop_first());
        assert(drop_empty(ls) =~~= ls);
    }
}

/// The lines of the rendered field block: one line per entry, then the two
/// empty pieces left by the final blank line.
proof fn lemma_lines_of_fmt_fields(fs: Seq<(Seq<char>, Seq<char>)>)
    requires
        forall|i: int|
            0 <= i < fs.len() ==> wf_name((#[trigger] fs[i]).0) && wf_value(fs[i].1),
    ensures
        split_crlf(fmt_fields(fs) + "\r\n"@) == field_lines_of(fs) + seq![
            Seq::<char>::empty(),
            Seq::<char>::empty(),
        ],
    decreases fs.len(),
{
    reveal_strlit("\r\n");
    let block = fmt_fields(fs) + "\r\n"@;
    if fs.len() == 0 {
        assert(block =~= seq!['\r', '\n']);
        assert(block.skip(2) =~= Seq::<char>::empty());
        assert(split_crlf(Seq::<char>::empty()) =~~= seq![Seq::<char>::empty()]);
        assert(split_crlf(block) =~~= field_lines_of(fs) + seq![
            Seq::<char>::empty(),
            Seq::<char>::empty(),
        ]);
    } else {
        let line0 = fmt_field(fs[0].0, fs[0].1);
        lemma_fmt_field_clean(fs[0].0, fs[0].1);
        let rest = fmt_fields(fs.drop_first()) + "\r\n"@;
        assert(block =~= line0 + seq!['\r', '\n'] + rest);
        lemma_split_crlf_line(line0, rest);
        assert(forall|i: int|
            0 <= i < fs.drop_first().len() ==> #[trigger] fs.drop_first()[i] == fs[i + 1]);
        lemma_lines_of_fmt_fields(fs.drop_first());
        assert(field_lines_of(fs).drop_first() =~= field_lines_of(fs.drop_first()));
        assert(split_crlf(block) =~~= field_lines_of(fs) + seq![
            Seq::<char>::empty(),
            Seq::<char>::empty(),
        ]);
    }
}

/// Rendering a well-formed request header and parsing the rendering yields
/// exactly that header: the codec's printer and parser are inverse on the
/// headers the parser itself produces.
pub proof fn lemma_header_round_trip(h: HeaderModel)
    requires
        wf_request_header(h),
    ensures
        spec_parse_header(fmt_header(h)) == Ok::<HeaderModel, Error>(h),
{
    reveal_strlit("\r\n");
    let rl = h.start->Request_0;
    assert(h.start == StartModel::Request(rl));
    let sl = fmt_start_line(h.start);
    assert(sl == fmt_request_line(rl));
    lemma_request_line_round_trip(rl);
    let block = fmt_fields(h.fields) + "\r\n"@;
    let full = fmt_header(h);
    assert(full =~= sl + seq!['\r', '\n'] + block);
    lemma_split_crlf_line(sl, block);
    lemma_lines_of_fmt_fields(h.fields);
    let fl = field_lines_of(h.fields);
    let tail2 = seq![Seq::<char>::empty(), Seq::<char>::empty()];
    assert(split_crlf(full) =~~= seq![sl] + (fl + tail2));
    lemma_drop_empty_append(seq![sl], fl + tail2);
    lemma_drop_empty_append(fl, tail2);
    assert(drop_empty(seq![sl]) =~~= seq![sl]) by {
        assert(seq![sl].drop_first().len() == 0);
        assert(drop_empty(seq![sl].drop_first()) =~~= Seq::<Seq<char>>::empty());
    }
    assert(drop_empty(tail2) =~~= Seq::<Seq<char>>::empty()) by {
        assert(tail2[0].len() == 0);
        assert(tail2.drop_first() =~= seq![Seq::<char>::empty()]);
        assert(seq![Seq::<char>::empty()].drop_first() =~= Seq::<Seq<char>>::empty());
        assert(drop_empty(Seq::<Seq<char>>::empty()) =~= Seq::<Seq<char>>::empty());
        assert(drop_empty(seq![Seq::<char>::empty()]) =~= Seq::<Seq<char>>::empty());
    }
    assert forall|k: int| 0 <= k < fl.len() implies (#[trigger] fl[k]).len() > 0 by {
        assert(fl[k] == fmt_field(h.fields[k].0, h.fields[k].1));
        lemma_fmt_field_clean(h.fields[k].0, h.fields[k].1);
    }
    lemma_drop_empty_identity(fl);
    let lines = header_lines(full);
    assert(lines =~~= seq![sl] + fl);
    assert(lines[0] == sl);
    assert(lines.drop_first() =~= fl);
    lemma_fields_round_trip(h.fields, Seq::<(Seq<char>, Seq<char>)>::empty());
    assert(Seq::<(Seq<char>, Seq<char>)>::empty() + h.fields =~= h.fields);
    assert(spec_parse_header(full) =~~= Ok::<HeaderModel, Error>(h));
}

/// Round trip over the wire: any request byte stream the codec accepts,
/// rendered back from its parse, parses to the same header again — so the
/// rendering is header-field-set-equivalent to the original stream, whose
/// field order and name case the parse abstracts away.
pub proof fn lemma_request_stream_round_trip(s: Seq<char>)
    requires
        spec_parse_header(s) is Ok,
        spec_parse_header(s)->Ok_0.start is Request,
    ensures
        spec_parse_header(fmt_header(spec_parse_header(s)->Ok_0)) == spec_parse_header(s),
{
    lemma_parse_header_wf(s);
    lemma_header_round_trip(spec_parse_header(s)->Ok_0);
}

} // verus!
