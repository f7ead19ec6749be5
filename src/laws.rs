//! Properties of parsing and editing, stated over the models and proved.
use vstd::prelude::*;
use crate::editor::{
    EditState, add_text, update_text, edit_lines, edit_scan, edit_start, edit_step, flush, has_prefix,
    line_field,
};
use crate::parser::{
    ParseState, apply_line, char_matches, directive_value, first_directive, host_value,
    keyword_at, parse_lines, parse_scan, parse_step, parse_text,
};
use crate::record::{
    ConfigModel, block_lines, config_text, directive_line, empty_model, header_line,
    host_keyword, keyword, missing_from, none_emitted, written,
};
use crate::text::{
    is_trimmed, is_ws, join_lines, lines_of, scan_lines, strip_cr, trim, trim_end, trim_start,
};

verus! {

/// A line that reads back as itself: no newline in it, no carriage return at its end.
pub open spec fn plain_line(l: Seq<char>) -> bool {
    !l.contains('\n') && strip_cr(l) == l
}

/// A text after which a new line starts.
pub open spec fn at_line_start(s: Seq<char>) -> bool {
    s.len() == 0 || s.last() == '\n'
}

/// A value that a written line gives back unchanged: not empty, trimmed, on one line.
pub open spec fn clean_value(v: Seq<char>) -> bool {
    v.len() > 0 && is_trimmed(v) && !v.contains('\n')
}

/// A record that a freshly written block holds exactly.
pub open spec fn clean_record(m: ConfigModel) -> bool {
    &&& clean_value(m.host)
    &&& m.fields.len() == 6
    &&& forall|i: int| 0 <= i < 6 ==> match #[trigger] m.fields[i] {
        Some(v) => clean_value(v),
        None => true,
    }
}

proof fn lemma_scan_open_line(s: Seq<char>, l: Seq<char>)
    requires
        at_line_start(s),
        !l.contains('\n'),
    ensures
        scan_lines(s + l) == (scan_lines(s).0, l),
    decreases l.len(),
{
    if l.len() == 0 {
        assert(s + l =~= s);
        if s.len() > 0 {
            assert(scan_lines(s).1 == Seq::<char>::empty());
        }
    } else {
        assert((s + l).drop_last() =~= s + l.drop_last());
        assert(!l.drop_last().contains('\n')) by {
            if l.drop_last().contains('\n') {
                let j = choose|j: int| 0 <= j < l.drop_last().len() && l.drop_last()[j] == '\n';
                assert(l[j] == '\n');
            }
        }
        lemma_scan_open_line(s, l.drop_last());
        assert(l.last() != '\n') by {
            assert(l[l.len() - 1] == l.last());
        }
        assert(l.drop_last().push(l.last()) =~= l);
    }
}

/// Each line as it reads back from a text: without one carriage return at its end.
pub open spec fn strip_all(ls: Seq<Seq<char>>) -> Seq<Seq<char>> {
    Seq::new(ls.len(), |k: int| strip_cr(ls[k]))
}

/// The lines of a text that ends at a line start, followed by lines each ended by a newline,
/// are its lines and then those lines as they read back.
pub proof fn lemma_lines_of_join(s: Seq<char>, ls: Seq<Seq<char>>)
    requires
        at_line_start(s),
        forall|k: int| 0 <= k < ls.len() ==> !(#[trigger] ls[k]).contains('\n'),
    ensures
        lines_of(s + join_lines(ls)) == lines_of(s) + strip_all(ls),
        scan_lines(s + join_lines(ls)).1.len() == 0,
        at_line_start(s + join_lines(ls)),
    decreases ls.len(),
{
    if ls.len() == 0 {
        assert(s + join_lines(ls) =~= s);
        assert(lines_of(s) + strip_all(ls) =~= lines_of(s));
        if s.len() > 0 {
            assert(scan_lines(s).1 == Seq::<char>::empty());
        }
    } else {
        let pre = ls.drop_last();
        let l = ls.last();
        assert(!ls[ls.len() - 1].contains('\n'));
        lemma_lines_of_join(s, pre);
        let t = s + join_lines(pre);
        lemma_scan_open_line(t, l);
        let whole = s + join_lines(ls);
        assert(whole =~= (t + l).push('\n'));
        assert(whole.drop_last() =~= t + l);
        assert(lines_of(s) + strip_all(ls) =~= (lines_of(s) + strip_all(pre)).push(strip_cr(l)));
    }
}

/// Lines that read back as themselves are their own read-back.
proof fn lemma_strip_all_plain(ls: Seq<Seq<char>>)
    requires
        forall|k: int| 0 <= k < ls.len() ==> plain_line(#[trigger] ls[k]),
    ensures
        strip_all(ls) == ls,
{
    assert(strip_all(ls) =~= ls);
}

proof fn lemma_trim_space_value(v: Seq<char>)
    requires
        v.len() > 0,
        is_trimmed(v),
    ensures
        trim(seq![' '] + v) == v,
{
    let s = seq![' '] + v;
    assert(s.drop_first() =~= v);
    assert(is_ws(' '));
    assert(trim_start(s) == trim_start(v));
    assert(trim_end(v) == v);
}

proof fn lemma_header_value(h: Seq<char>)
    requires
        clean_value(h),
    ensures
        host_value(header_line(h)) == Some(h),
{
    let l = header_line(h);
    assert(l.subrange(4, l.len() as int) =~= seq![' '] + h);
    lemma_trim_space_value(h);
    assert(keyword_at(l, 0, host_keyword(), true)) by {
        assert forall|j: int| 0 <= j < 4 implies #[trigger] char_matches(
            l[0 + j],
            host_keyword()[j],
            true,
        ) by {
            assert(l[0 + j] == host_keyword()[j]);
        }
    }
    assert(is_ws(l[4]));
}

proof fn lemma_directive_not_header(i: int, v: Seq<char>)
    ensures
        host_value(directive_line(i, v)) is None,
{
    let l = directive_line(i, v);
    assert(l[0] == ' ');
    assert(!char_matches(l[0int + 0], host_keyword()[0], true));
}

proof fn lemma_directive_trim_start(i: int, v: Seq<char>)
    requires
        0 <= i < 6,
    ensures
        trim_start(directive_line(i, v)) == keyword(i) + seq![' '] + v,
{
    let l = directive_line(i, v);
    let rest = keyword(i) + seq![' '] + v;
    assert(l.drop_first().drop_first() =~= rest);
    assert(is_ws(l[0]) && is_ws(l.drop_first()[0]));
    assert(rest[0] == keyword(i)[0]);
    assert(!is_ws(keyword(i)[0])) by {
        if i == 0 {
            assert(keyword(i)[0] == 'H');
        } else if i == 1 {
            assert(keyword(i)[0] == 'U');
        } else if i == 2 || i == 4 {
            assert(keyword(i)[0] == 'P');
        } else if i == 3 {
            assert(keyword(i)[0] == 'I');
        } else {
            assert(keyword(i)[0] == '#');
        }
    }
    assert(trim_start(rest) == rest);
    assert(trim_start(l.drop_first()) == trim_start(rest));
}

/// Keyword `k` and keyword `j` differ within the first two letters, case ignored.
proof fn lemma_keywords_differ(rest: Seq<char>, i: int, j: int, folded: bool)
    requires
        0 <= j < i < 6,
        rest.len() >= keyword(i).len(),
        rest.subrange(0, keyword(i).len() as int) == keyword(i),
    ensures
        !keyword_at(rest, 0, keyword(j), folded),
{
    assert(rest[0] == keyword(i)[0]);
    assert(rest[1] == keyword(i)[1]);
    if keyword_at(rest, 0, keyword(j), folded) {
        assert(char_matches(rest[0int + 0], keyword(j)[0], folded));
        assert(char_matches(rest[0int + 1], keyword(j)[1], folded));
    }
}

proof fn lemma_first_directive_of_line(i: int, v: Seq<char>)
    requires
        0 <= i < 6,
        clean_value(v),
    ensures
        first_directive(directive_line(i, v), 0) == Some((i, v)),
{
    let l = directive_line(i, v);
    let rest = keyword(i) + seq![' '] + v;
    let n = keyword(i).len();
    lemma_directive_trim_start(i, v);
    assert(rest.subrange(0, n as int) =~= keyword(i));
    assert forall|j: int| 0 <= j < i implies directive_value(l, j) is None by {
        lemma_keywords_differ(rest, i, j, true);
    }
    assert(keyword_at(rest, 0, keyword(i), true)) by {
        assert forall|t: int| 0 <= t < n implies #[trigger] char_matches(
            rest[0 + t],
            keyword(i)[t],
            true,
        ) by {
            assert(rest[0 + t] == keyword(i)[t]);
        }
    }
    assert(rest.subrange(n as int, rest.len() as int) =~= seq![' '] + v);
    lemma_trim_space_value(v);
    assert(directive_value(l, i) == Some(v));
    lemma_first_directive_from(l, i, 0);
}

proof fn lemma_first_directive_from(l: Seq<char>, i: int, j: int)
    requires
        0 <= j <= i < 6,
        directive_value(l, i) is Some,
        forall|t: int| j <= t < i ==> directive_value(l, t) is None,
    ensures
        first_directive(l, j) == Some((i, directive_value(l, i)->0)),
    decreases i - j,
{
    if j < i {
        lemma_first_directive_from(l, i, j + 1);
    }
}

/// Reading the lines `ls` into an open record `c`.
pub open spec fn apply_lines(c: ConfigModel, ls: Seq<Seq<char>>) -> ConfigModel
    decreases ls.len(),
{
    if ls.len() == 0 {
        c
    } else {
        apply_line(apply_lines(c, ls.drop_last()), ls.last())
    }
}

proof fn lemma_apply_lines_concat(c: ConfigModel, a: Seq<Seq<char>>, b: Seq<Seq<char>>)
    ensures
        apply_lines(c, a + b) == apply_lines(apply_lines(c, a), b),
    decreases b.len(),
{
    if b.len() == 0 {
        assert(a + b =~= a);
    } else {
        assert((a + b).drop_last() =~= a + b.drop_last());
        lemma_apply_lines_concat(c, a, b.drop_last());
    }
}

proof fn lemma_parse_body(x: Seq<Seq<char>>, y: Seq<Seq<char>>, c: ConfigModel)
    requires
        parse_scan(x).cur == Some(c),
        forall|k: int| 0 <= k < y.len() ==> host_value(#[trigger] y[k]) is None,
    ensures
        parse_scan(x + y) == (ParseState { done: parse_scan(x).done, cur: Some(apply_lines(c, y)) }),
    decreases y.len(),
{
    if y.len() == 0 {
        assert(x + y =~= x);
    } else {
        assert((x + y).drop_last() =~= x + y.drop_last());
        assert(host_value(y[y.len() - 1]) is None);
        lemma_parse_body(x, y.drop_last(), c);
    }
}

/// The record `c` with the directives of `m` from `i` on, those that have a value, set.
pub open spec fn with_fields_from(c: ConfigModel, m: ConfigModel, i: int) -> ConfigModel {
    ConfigModel {
        host: c.host,
        fields: Seq::new(
            c.fields.len(),
            |j: int|
                if j >= i && written(m, j) is Some {
                    written(m, j)
                } else {
                    c.fields[j]
                },
        ),
    }
}

proof fn lemma_apply_missing(c: ConfigModel, m: ConfigModel, i: int)
    requires
        0 <= i <= 6,
        c.fields.len() == 6,
        clean_record(m),
    ensures
        apply_lines(c, missing_from(m, none_emitted(), i)) == with_fields_from(c, m, i),
        forall|k: int|
            0 <= k < missing_from(m, none_emitted(), i).len() ==> host_value(
                #[trigger] missing_from(m, none_emitted(), i)[k],
            ) is None,
        forall|k: int|
            0 <= k < missing_from(m, none_emitted(), i).len() ==> plain_line(
                #[trigger] missing_from(m, none_emitted(), i)[k],
            ),
    decreases 6 - i,
{
    let rest = missing_from(m, none_emitted(), i);
    if i == 6 {
        assert(with_fields_from(c, m, i).fields =~= c.fields);
    } else {
        match written(m, i) {
            Some(v) => {
                let l = directive_line(i, v);
                assert(m.fields[i] == Some(v));
                lemma_first_directive_of_line(i, v);
                let c1 = apply_line(c, l);
                lemma_apply_missing(c1, m, i + 1);
                lemma_apply_lines_concat(c, seq![l], missing_from(m, none_emitted(), i + 1));
                assert(seq![l].drop_last() =~= Seq::<Seq<char>>::empty());
                assert(seq![l].last() == l);
                assert(apply_lines(c, Seq::<Seq<char>>::empty()) == c);
                assert(apply_lines(c, seq![l]) == c1);
                assert(with_fields_from(c1, m, i + 1).fields =~= with_fields_from(c, m, i).fields);
                lemma_directive_not_header(i, v);
                assert(plain_line(l)) by {
                    assert(l =~= seq![' ', ' '] + keyword(i) + seq![' '] + v);
                    assert(l.last() == v.last());
                    assert(is_ws('\r'));
                    if l.contains('\n') {
                        let t = choose|t: int| 0 <= t < l.len() && l[t] == '\n';
                        if t >= l.len() - v.len() {
                            assert(v[t - (l.len() - v.len())] == '\n');
                        }
                    }
                }
                assert forall|k: int| 0 <= k < rest.len() implies host_value(#[trigger] rest[k])
                    is None && plain_line(rest[k]) by {
                    if k > 0 {
                        assert(rest[k] == missing_from(m, none_emitted(), i + 1)[k - 1]);
                    }
                }
            },
            None => {
                lemma_apply_missing(c, m, i + 1);
                assert(with_fields_from(c, m, i + 1).fields =~= with_fields_from(c, m, i).fields);
            },
        }
    }
}

/// Reading back what appending a record to a text wrote gives that record: parsing the new
/// text ends with a record equal to the one appended.
pub proof fn law_round_trip(content: Seq<char>, m: ConfigModel)
    requires
        clean_record(m),
    ensures
        parse_text(add_text(content, m)).len() > 0,
        parse_text(add_text(content, m)).last() == m,
{
    let s = if content.len() == 0 {
        content
    } else {
        content + crate::editor::separator(content)
    };
    assert(at_line_start(s)) by {
        if content.len() > 0 {
            let sep = crate::editor::separator(content);
            assert((content + sep).last() == '\n');
        }
    }
    assert(add_text(content, m) =~= s + config_text(m));
    let c0 = empty_model(m.host);
    lemma_apply_missing(c0, m, 0);
    let body = missing_from(m, none_emitted(), 0);
    let bl = block_lines(m);
    assert(plain_line(header_line(m.host))) by {
        let l = header_line(m.host);
        assert(l.last() == m.host.last());
        assert(is_ws('\r'));
        if l.contains('\n') {
            let t = choose|t: int| 0 <= t < l.len() && l[t] == '\n';
            assert(m.host[t - 5] == '\n');
        }
    }
    assert forall|k: int| 0 <= k < bl.len() implies plain_line(#[trigger] bl[k]) by {
        if k > 0 {
            assert(bl[k] == body[k - 1]);
        }
    }
    lemma_lines_of_join(s, bl);
    lemma_strip_all_plain(bl);
    let x = lines_of(s).push(header_line(m.host));
    assert(lines_of(s) + bl =~= x + body);
    lemma_header_value(m.host);
    assert(x.drop_last() =~= lines_of(s));
    assert(parse_scan(x).cur == Some(c0));
    lemma_parse_body(x, body, c0);
    assert(with_fields_from(c0, m, 0).fields =~= m.fields) by {
        assert forall|j: int| 0 <= j < 6 implies with_fields_from(c0, m, 0).fields[j]
            == m.fields[j] by {
            match m.fields[j] {
                Some(v) => {},
                None => {},
            }
        }
    }
}

/// The keyword of a block's opening line is read in any case: a header whose first four
/// letters spell `Host` in any mix of capitals, followed by a space and a host, reads as a
/// record for that host.
pub proof fn law_host_keyword_any_case(k: Seq<char>, h: Seq<char>)
    requires
        k.len() == 4,
        keyword_at(k, 0, host_keyword(), false),
        clean_value(h),
    ensures
        host_value(k + seq![' '] + h) == Some(h),
        parse_lines(seq![k + seq![' '] + h]) == seq![empty_model(h)],
{
    let l = k + seq![' '] + h;
    assert(keyword_at(l, 0, host_keyword(), true)) by {
        assert forall|j: int| 0 <= j < 4 implies #[trigger] char_matches(
            l[0 + j],
            host_keyword()[j],
            true,
        ) by {
            assert(l[0 + j] == k[0 + j]);
            assert(char_matches(k[0 + j], host_keyword()[j], false));
        }
    }
    assert(l.subrange(4, l.len() as int) =~= seq![' '] + h);
    lemma_trim_space_value(h);
    assert(is_ws(l[4]));
    assert(seq![l].drop_last() =~= Seq::<Seq<char>>::empty());
    assert(parse_scan(seq![l]) == parse_step(parse_scan(Seq::<Seq<char>>::empty()), l));
}

/// After reading `ls`, a block of `host` is open.
pub open spec fn open_target(ls: Seq<Seq<char>>, host: Seq<char>) -> bool
    decreases ls.len(),
{
    if ls.len() == 0 {
        false
    } else {
        match host_value(ls.last()) {
            Some(h) => h == host,
            None => open_target(ls.drop_last(), host),
        }
    }
}

/// The lines of `ls` outside the bodies of the blocks of `host`; with `all_body` false, the
/// lines of those bodies that start with no modelled directive's prefix are counted too.
pub open spec fn kept_lines(ls: Seq<Seq<char>>, host: Seq<char>, all_body: bool) -> Seq<Seq<char>>
    decreases ls.len(),
{
    if ls.len() == 0 {
        seq![]
    } else {
        let pre = kept_lines(ls.drop_last(), host, all_body);
        let l = ls.last();
        if host_value(l) is None && open_target(ls.drop_last(), host) && (all_body || line_field(
            l,
            0,
        ) is Some) {
            pre
        } else {
            pre.push(l)
        }
    }
}

/// Some line in the body of a block of `host` in `ls` starts with the prefix of directive `i`.
pub open spec fn body_has_field(ls: Seq<Seq<char>>, host: Seq<char>, i: int) -> bool
    decreases ls.len(),
{
    if ls.len() == 0 {
        false
    } else {
        (host_value(ls.last()) is None && open_target(ls.drop_last(), host) && line_field(
            ls.last(),
            0,
        ) == Some(i)) || body_has_field(ls.drop_last(), host, i)
    }
}

proof fn lemma_line_field_from(l: Seq<char>, i: int, j: int)
    requires
        0 <= j <= i < 6,
        has_prefix(l, i),
        forall|t: int| j <= t < i ==> !has_prefix(l, t),
    ensures
        line_field(l, j) == Some(i),
    decreases i - j,
{
    if j < i {
        lemma_line_field_from(l, i, j + 1);
    }
}

proof fn lemma_line_field_of_directive(i: int, v: Seq<char>)
    requires
        0 <= i < 6,
    ensures
        line_field(directive_line(i, v), 0) == Some(i),
        host_value(directive_line(i, v)) is None,
{
    let l = directive_line(i, v);
    let rest = keyword(i) + seq![' '] + v;
    let n = keyword(i).len();
    lemma_directive_trim_start(i, v);
    lemma_directive_not_header(i, v);
    assert(rest.subrange(0, n as int) =~= keyword(i));
    assert forall|j: int| 0 <= j < i implies !has_prefix(l, j) by {
        lemma_keywords_differ(rest, i, j, false);
    }
    assert(keyword_at(rest, 0, keyword(i), false)) by {
        assert forall|t: int| 0 <= t < n implies #[trigger] char_matches(
            rest[0 + t],
            keyword(i)[t],
            false,
        ) by {
            assert(rest[0 + t] == keyword(i)[t]);
        }
    }
    assert(rest[n as int] == ' ');
    lemma_line_field_from(l, i, 0);
}

/// Lines of modelled directives for a target block: not headers, each with its own prefix.
pub open spec fn directive_lines_of(ys: Seq<Seq<char>>, m: ConfigModel) -> bool {
    forall|k: int|
        0 <= k < ys.len() ==> host_value(#[trigger] ys[k]) is None && (exists|i: int|
            0 <= i < 6 && written(m, i) is Some && line_field(ys[k], 0) == Some(i))
}

proof fn lemma_missing_are_directives(m: ConfigModel, e: Seq<bool>, i: int)
    requires
        0 <= i <= 6,
    ensures
        directive_lines_of(missing_from(m, e, i), m),
    decreases 6 - i,
{
    if i < 6 {
        lemma_missing_are_directives(m, e, i + 1);
        let rest = missing_from(m, e, i + 1);
        match written(m, i) {
            Some(v) => {
                if !e[i] {
                    let ys = missing_from(m, e, i);
                    lemma_line_field_of_directive(i, v);
                    assert forall|k: int| 0 <= k < ys.len() implies host_value(#[trigger] ys[k])
                        is None && (exists|j: int|
                        0 <= j < 6 && written(m, j) is Some && line_field(ys[k], 0) == Some(j)) by {
                        if k > 0 {
                            assert(ys[k] == rest[k - 1]);
                        } else {
                            assert(ys[k] == directive_line(i, v));
                        }
                    }
                }
            },
            None => {},
        }
    }
}

proof fn lemma_append_directives(x: Seq<Seq<char>>, ys: Seq<Seq<char>>, host: Seq<char>, m: ConfigModel)
    requires
        open_target(x, host),
        directive_lines_of(ys, m),
    ensures
        open_target(x + ys, host),
        kept_lines(x + ys, host, true) == kept_lines(x, host, true),
        kept_lines(x + ys, host, false) == kept_lines(x, host, false),
        forall|i: int| written(m, i) is None ==> body_has_field(x + ys, host, i) == body_has_field(x, host, i),
    decreases ys.len(),
{
    if ys.len() == 0 {
        assert(x + ys =~= x);
    } else {
        let pre = ys.drop_last();
        assert(directive_lines_of(pre, m)) by {
            assert forall|k: int| 0 <= k < pre.len() implies host_value(#[trigger] pre[k]) is None
                && (exists|i: int| 0 <= i < 6 && written(m, i) is Some && line_field(pre[k], 0) == Some(i)) by {
                assert(pre[k] == ys[k]);
            }
        }
        lemma_append_directives(x, pre, host, m);
        assert((x + ys).drop_last() =~= x + pre);
        assert((x + ys).last() == ys[ys.len() - 1]);
        let k = ys.len() - 1;
        assert(host_value(ys[k]) is None);
        let j = choose|j: int| 0 <= j < 6 && written(m, j) is Some && line_field(ys[k], 0) == Some(j);
    }
}

proof fn lemma_push_line(x: Seq<Seq<char>>, l: Seq<char>, host: Seq<char>, i: int)
    ensures
        (x.push(l)).drop_last() == x,
        (x.push(l)).last() == l,
        kept_lines(x.push(l), host, true) == if host_value(l) is None && open_target(x, host) {
            kept_lines(x, host, true)
        } else {
            kept_lines(x, host, true).push(l)
        },
        kept_lines(x.push(l), host, false) == if host_value(l) is None && open_target(x, host)
            && line_field(l, 0) is Some {
            kept_lines(x, host, false)
        } else {
            kept_lines(x, host, false).push(l)
        },
        open_target(x.push(l), host) == match host_value(l) {
            Some(h) => h == host,
            None => open_target(x, host),
        },
        body_has_field(x.push(l), host, i) == ((host_value(l) is None && open_target(x, host)
            && line_field(l, 0) == Some(i)) || body_has_field(x, host, i)),
{
    assert((x.push(l)).drop_last() =~= x);
}

/// What reading `ls` in an edit keeps: the same lines outside target bodies, the same lines
/// in them without a directive prefix, and no line for a directive the record leaves out.
proof fn lemma_edit_scan_keeps(ls: Seq<Seq<char>>, host: Seq<char>, m: ConfigModel)
    ensures
        edit_scan(ls, host, m).inside == open_target(ls, host),
        open_target(edit_scan(ls, host, m).out, host) == open_target(ls, host),
        edit_scan(ls, host, m).emitted.len() == 6,
        kept_lines(edit_scan(ls, host, m).out, host, true) == kept_lines(ls, host, true),
        kept_lines(edit_scan(ls, host, m).out, host, false) == kept_lines(ls, host, false),
        forall|i: int| written(m, i) is None ==> !body_has_field(edit_scan(ls, host, m).out, host, i),
    decreases ls.len(),
{
    if ls.len() == 0 {
        assert(edit_start().emitted.len() == 6);
    } else {
        let pre = ls.drop_last();
        let l = ls.last();
        lemma_edit_scan_keeps(pre, host, m);
        let st = edit_scan(pre, host, m);
        let out = st.out;
        let nx = edit_step(st, l, host, m);
        lemma_push_line(out, l, host, 0);
        match host_value(l) {
            Some(h) => {
                if h != host {
                    if st.inside {
                        lemma_missing_are_directives(m, st.emitted, 0);
                        lemma_append_directives(out, missing_from(m, st.emitted, 0), host, m);
                    }
                    let f = flush(st, m);
                    assert forall|i: int| written(m, i) is None implies !body_has_field(nx.out, host, i) by {
                        lemma_push_line(f, l, host, i);
                        if st.inside {
                            assert(body_has_field(out + missing_from(m, st.emitted, 0), host, i)
                                == body_has_field(out, host, i));
                        }
                    }
                    lemma_push_line(f, l, host, 0);
                } else {
                    assert forall|i: int| written(m, i) is None implies !body_has_field(nx.out, host, i) by {
                        lemma_push_line(out, l, host, i);
                    }
                }
            },
            None => {
                if st.inside {
                    match line_field(l, 0) {
                        None => {
                            assert forall|i: int| written(m, i) is None implies !body_has_field(nx.out, host, i) by {
                                lemma_push_line(out, l, host, i);
                            }
                        },
                        Some(i) => {
                            lemma_line_field_range(l, 0);
                            match written(m, i) {
                                Some(v) => {
                                    if !st.emitted[i] {
                                        let dl = directive_line(i, v);
                                        assert(0 <= i < 6) by {
                                            lemma_line_field_range(l, 0);
                                        }
                                        lemma_line_field_of_directive(i, v);
                                        lemma_push_line(out, dl, host, 0);
                                        assert forall|j: int| written(m, j) is None implies !body_has_field(nx.out, host, j) by {
                                            lemma_push_line(out, dl, host, j);
                                        }
                                    }
                                },
                                None => {},
                            }
                        },
                    }
                } else {
                    assert forall|i: int| written(m, i) is None implies !body_has_field(nx.out, host, i) by {
                        lemma_push_line(out, l, host, i);
                    }
                }
            },
        }
    }
}

proof fn lemma_line_field_range(l: Seq<char>, j: int)
    requires
        0 <= j,
    ensures
        match line_field(l, j) {
            Some(i) => j <= i < 6,
            None => true,
        },
    decreases 6 - j,
{
    if j < 6 && !has_prefix(l, j) {
        lemma_line_field_range(l, j + 1);
    }
}

proof fn lemma_edit_keeps(ls: Seq<Seq<char>>, host: Seq<char>, m: ConfigModel)
    ensures
        kept_lines(edit_lines(ls, host, m).0, host, true) == kept_lines(ls, host, true),
        kept_lines(edit_lines(ls, host, m).0, host, false) == kept_lines(ls, host, false),
        forall|i: int| written(m, i) is None ==> !body_has_field(edit_lines(ls, host, m).0, host, i),
{
    lemma_edit_scan_keeps(ls, host, m);
    let st = edit_scan(ls, host, m);
    if st.inside {
        lemma_missing_are_directives(m, st.emitted, 0);
        lemma_append_directives(st.out, missing_from(m, st.emitted, 0), host, m);
        assert forall|i: int| written(m, i) is None implies !body_has_field(
            edit_lines(ls, host, m).0,
            host,
            i,
        ) by {
            assert(body_has_field(st.out + missing_from(m, st.emitted, 0), host, i)
                == body_has_field(st.out, host, i));
        }
    }
}

/// Editing the blocks of `host` leaves every line outside their bodies as it was and where
/// it was: the lines of other hosts' blocks, and those before the first block.
pub proof fn law_non_interference(ls: Seq<Seq<char>>, host: Seq<char>, m: ConfigModel)
    ensures
        kept_lines(edit_lines(ls, host, m).0, host, true) == kept_lines(ls, host, true),
{
    lemma_edit_keeps(ls, host, m);
}

/// Editing the blocks of `host` leaves each line of their bodies that starts with no modelled
/// directive's prefix as it was, in the same order among the lines it does not touch.
pub proof fn law_unknown_lines_kept(ls: Seq<Seq<char>>, host: Seq<char>, m: ConfigModel)
    ensures
        kept_lines(edit_lines(ls, host, m).0, host, false) == kept_lines(ls, host, false),
{
    lemma_edit_keeps(ls, host, m);
}

/// A directive that the replacement record leaves out has no line in the edited blocks
/// afterwards; outside them nothing changes.
pub proof fn law_absent_field_deleted(ls: Seq<Seq<char>>, host: Seq<char>, m: ConfigModel, i: int)
    requires
        written(m, i) is None,
    ensures
        !body_has_field(edit_lines(ls, host, m).0, host, i),
        kept_lines(edit_lines(ls, host, m).0, host, true) == kept_lines(ls, host, true),
{
    lemma_edit_keeps(ls, host, m);
}

/// An edit in state `st` reading the further lines `ys`.
pub open spec fn edit_from(st: EditState, ys: Seq<Seq<char>>, host: Seq<char>, m: ConfigModel) -> EditState
    decreases ys.len(),
{
    if ys.len() == 0 {
        st
    } else {
        edit_step(edit_from(st, ys.drop_last(), host, m), ys.last(), host, m)
    }
}

proof fn lemma_edit_scan_concat(x: Seq<Seq<char>>, y: Seq<Seq<char>>, host: Seq<char>, m: ConfigModel)
    ensures
        edit_scan(x + y, host, m) == edit_from(edit_scan(x, host, m), y, host, m),
    decreases y.len(),
{
    if y.len() == 0 {
        assert(x + y =~= x);
    } else {
        assert((x + y).drop_last() =~= x + y.drop_last());
        lemma_edit_scan_concat(x, y.drop_last(), host, m);
    }
}

proof fn lemma_edit_from_concat(st: EditState, a: Seq<Seq<char>>, b: Seq<Seq<char>>, host: Seq<char>, m: ConfigModel)
    ensures
        edit_from(st, a + b, host, m) == edit_from(edit_from(st, a, host, m), b, host, m),
    decreases b.len(),
{
    if b.len() == 0 {
        assert(a + b =~= a);
    } else {
        assert((a + b).drop_last() =~= a + b.drop_last());
        lemma_edit_from_concat(st, a, b.drop_last(), host, m);
    }
}

proof fn lemma_edit_from_one(st: EditState, l: Seq<char>, host: Seq<char>, m: ConfigModel)
    ensures
        edit_from(st, seq![l], host, m) == edit_step(st, l, host, m),
{
    assert(seq![l].drop_last() =~= Seq::<Seq<char>>::empty());
    assert(seq![l].last() == l);
    assert(edit_from(st, Seq::<Seq<char>>::empty(), host, m) == st);
}

/// The flags after the missing directives from `i` on have been written again.
pub open spec fn flags_after(f: Seq<bool>, m: ConfigModel, i: int) -> Seq<bool> {
    Seq::new(6, |j: int| if j >= i && written(m, j) is Some { true } else { f[j] })
}

proof fn lemma_replay_missing(st: EditState, m: ConfigModel, e: Seq<bool>, i: int, host: Seq<char>)
    requires
        0 <= i <= 6,
        st.inside,
        st.emitted.len() == 6,
        e.len() == 6,
        forall|j: int| i <= j < 6 ==> st.emitted[j] == e[j],
    ensures
        edit_from(st, missing_from(m, e, i), host, m) == (EditState {
            out: st.out + missing_from(m, e, i),
            inside: true,
            emitted: flags_after(st.emitted, m, i),
            found: st.found,
        }),
    decreases 6 - i,
{
    let ys = missing_from(m, e, i);
    if i == 6 {
        assert(st.out + ys =~= st.out);
        assert(flags_after(st.emitted, m, i) =~= st.emitted);
    } else {
        let rest = missing_from(m, e, i + 1);
        match written(m, i) {
            Some(v) => {
                if !e[i] {
                    let dl = directive_line(i, v);
                    lemma_line_field_of_directive(i, v);
                    lemma_edit_from_one(st, dl, host, m);
                    let st1 = edit_step(st, dl, host, m);
                    lemma_edit_from_concat(st, seq![dl], rest, host, m);
                    assert(seq![dl] + rest =~= ys);
                    lemma_replay_missing(st1, m, e, i + 1, host);
                    assert(st1.out + rest =~= st.out + ys);
                    assert(flags_after(st1.emitted, m, i + 1) =~= flags_after(st.emitted, m, i));
                } else {
                    lemma_replay_missing(st, m, e, i + 1, host);
                    assert(flags_after(st.emitted, m, i + 1) =~= flags_after(st.emitted, m, i));
                }
            },
            None => {
                lemma_replay_missing(st, m, e, i + 1, host);
                assert(flags_after(st.emitted, m, i + 1) =~= flags_after(st.emitted, m, i));
            },
        }
    }
}

proof fn lemma_nothing_missing(m: ConfigModel, e: Seq<bool>, i: int)
    requires
        0 <= i <= 6,
        forall|j: int| i <= j < 6 && written(m, j) is Some ==> e[j],
    ensures
        missing_from(m, e, i) == Seq::<Seq<char>>::empty(),
    decreases 6 - i,
{
    if i < 6 {
        lemma_nothing_missing(m, e, i + 1);
    }
}

/// Two edit states that will write the same from here on.
pub open spec fn agree(s1: EditState, s2: EditState) -> bool {
    &&& s2.out == s1.out
    &&& s2.inside == s1.inside
    &&& s2.found == s1.found
    &&& s1.emitted.len() == 6
    &&& s2.emitted.len() == 6
    &&& s1.inside ==> s2.emitted == s1.emitted
}

proof fn lemma_rescan(ls: Seq<Seq<char>>, host: Seq<char>, m: ConfigModel)
    ensures
        agree(edit_scan(ls, host, m), edit_scan(edit_scan(ls, host, m).out, host, m)),
    decreases ls.len(),
{
    if ls.len() == 0 {
        assert(edit_start().emitted.len() == 6);
    } else {
        let pre = ls.drop_last();
        let l = ls.last();
        lemma_rescan(pre, host, m);
        let s1 = edit_scan(pre, host, m);
        let s2 = edit_scan(s1.out, host, m);
        let n1 = edit_step(s1, l, host, m);
        assert(edit_scan(ls, host, m) == n1);
        assert(ls =~= pre.push(l));
        match host_value(l) {
            Some(h) => {
                if h == host {
                    lemma_edit_scan_concat(s1.out, seq![l], host, m);
                    lemma_edit_from_one(s2, l, host, m);
                    assert(n1.out =~= s1.out + seq![l]);
                } else if s1.inside {
                    let ys = missing_from(m, s1.emitted, 0);
                    lemma_edit_scan_concat(s1.out, ys + seq![l], host, m);
                    lemma_edit_from_concat(s2, ys, seq![l], host, m);
                    lemma_replay_missing(s2, m, s1.emitted, 0, host);
                    let s3 = edit_from(s2, ys, host, m);
                    lemma_edit_from_one(s3, l, host, m);
                    lemma_nothing_missing(m, s3.emitted, 0);
                    assert(s3.out + Seq::<Seq<char>>::empty() =~= s3.out);
                    assert(n1.out =~= s1.out + (ys + seq![l]));
                } else {
                    lemma_edit_scan_concat(s1.out, seq![l], host, m);
                    lemma_edit_from_one(s2, l, host, m);
                    assert(n1.out =~= s1.out + seq![l]);
                }
            },
            None => {
                if !s1.inside {
                    lemma_edit_scan_concat(s1.out, seq![l], host, m);
                    lemma_edit_from_one(s2, l, host, m);
                    assert(n1.out =~= s1.out + seq![l]);
                } else {
                    match line_field(l, 0) {
                        None => {
                            lemma_edit_scan_concat(s1.out, seq![l], host, m);
                            lemma_edit_from_one(s2, l, host, m);
                            assert(n1.out =~= s1.out + seq![l]);
                        },
                        Some(i) => {
                            lemma_line_field_range(l, 0);
                            match written(m, i) {
                                Some(v) => {
                                    if !s1.emitted[i] {
                                        let dl = directive_line(i, v);
                                        lemma_line_field_of_directive(i, v);
                                        lemma_edit_scan_concat(s1.out, seq![dl], host, m);
                                        lemma_edit_from_one(s2, dl, host, m);
                                        assert(n1.out =~= s1.out + seq![dl]);
                                    } else {
                                        assert(n1 == s1);
                                    }
                                },
                                None => {
                                    assert(n1 == s1);
                                },
                            }
                        },
                    }
                }
            },
        }
    }
}

/// Applying the same edit twice gives what applying it once gives.
pub proof fn law_edit_idempotent(ls: Seq<Seq<char>>, host: Seq<char>, m: ConfigModel)
    ensures
        edit_lines(edit_lines(ls, host, m).0, host, m) == edit_lines(ls, host, m),
{
    lemma_rescan(ls, host, m);
    let s1 = edit_scan(ls, host, m);
    let s2 = edit_scan(s1.out, host, m);
    if s1.inside {
        let ys = missing_from(m, s1.emitted, 0);
        lemma_edit_scan_concat(s1.out, ys, host, m);
        lemma_replay_missing(s2, m, s1.emitted, 0, host);
        let s3 = edit_from(s2, ys, host, m);
        lemma_nothing_missing(m, s3.emitted, 0);
        assert(s3.out + Seq::<Seq<char>>::empty() =~= s3.out);
    }
}

pub open spec fn all_plain(ls: Seq<Seq<char>>) -> bool {
    forall|k: int| 0 <= k < ls.len() ==> plain_line(#[trigger] ls[k])
}

proof fn lemma_scan_not_found(ls: Seq<Seq<char>>, host: Seq<char>, m: ConfigModel)
    ensures
        !edit_scan(ls, host, m).found ==> edit_scan(ls, host, m).out == ls && !edit_scan(
            ls,
            host,
            m,
        ).inside,
    decreases ls.len(),
{
    if ls.len() > 0 {
        lemma_scan_not_found(ls.drop_last(), host, m);
        assert(ls.drop_last().push(ls.last()) =~= ls);
    }
}

/// No value that `m` writes spans two lines.
pub open spec fn single_line_values(m: ConfigModel) -> bool {
    forall|i: int| 0 <= i < 6 ==> match #[trigger] written(m, i) {
        Some(v) => !v.contains('\n'),
        None => true,
    }
}

/// `a` and `b` differ at most in lines of target bodies that start with the same directive.
pub open spec fn same_but_directives(a: Seq<Seq<char>>, b: Seq<Seq<char>>, host: Seq<char>) -> bool {
    &&& a.len() == b.len()
    &&& forall|k: int|
        0 <= k < a.len() ==> #[trigger] a[k] == b[k] || (open_target(a.take(k), host)
            && host_value(a[k]) is None && host_value(b[k]) is None && line_field(a[k], 0) is Some
            && line_field(b[k], 0) == line_field(a[k], 0))
}

proof fn lemma_same_but_directives(a: Seq<Seq<char>>, b: Seq<Seq<char>>, host: Seq<char>, m: ConfigModel)
    requires
        same_but_directives(a, b, host),
    ensures
        open_target(a, host) == open_target(b, host),
        edit_scan(a, host, m) == edit_scan(b, host, m),
        kept_lines(a, host, true) == kept_lines(b, host, true),
        kept_lines(a, host, false) == kept_lines(b, host, false),
        forall|i: int| body_has_field(a, host, i) == body_has_field(b, host, i),
    decreases a.len(),
{
    if a.len() > 0 {
        let n = a.len() - 1;
        let a0 = a.drop_last();
        let b0 = b.drop_last();
        assert(same_but_directives(a0, b0, host)) by {
            assert forall|k: int| 0 <= k < a0.len() implies #[trigger] a0[k] == b0[k] || (
            open_target(a0.take(k), host) && host_value(a0[k]) is None && host_value(b0[k])
                is None && line_field(a0[k], 0) is Some && line_field(b0[k], 0) == line_field(
                a0[k],
                0,
            )) by {
                assert(a0.take(k) =~= a.take(k));
                assert(a0[k] == a[k] && b0[k] == b[k]);
            }
        }
        lemma_same_but_directives(a0, b0, host, m);
        assert(a.take(n) =~= a0);
        assert(a[n] == a.last() && b[n] == b.last());
        lemma_edit_scan_keeps(a0, host, m);
        assert forall|i: int| body_has_field(a, host, i) == body_has_field(b, host, i) by {
            assert(body_has_field(a0, host, i) == body_has_field(b0, host, i));
        }
    }
}

proof fn lemma_directive_strip(i: int, v: Seq<char>)
    requires
        0 <= i < 6,
        v.len() > 0,
    ensures
        strip_cr(directive_line(i, v)) == directive_line(i, strip_cr(v)),
{
    let l = directive_line(i, v);
    assert(l.last() == v.last());
    if v.last() == '\r' {
        assert(l.drop_last() =~= directive_line(i, v.drop_last()));
    }
}

proof fn lemma_directive_one_line(i: int, v: Seq<char>)
    requires
        0 <= i < 6,
        !v.contains('\n'),
    ensures
        !directive_line(i, v).contains('\n'),
{
    let l = directive_line(i, v);
    let n = l.len() - v.len();
    if l.contains('\n') {
        let t = choose|t: int| 0 <= t < l.len() && l[t] == '\n';
        if t >= n {
            assert(v[t - n] == '\n');
        } else if t >= 2 && t < n - 1 {
            assert(keyword(i)[t - 2] == '\n');
        }
    }
}

/// Line `y`, written after the lines `x`, reads back as itself, or as a line of the same
/// directive inside a target body.
pub open spec fn reads_back_at(x: Seq<Seq<char>>, y: Seq<char>, host: Seq<char>) -> bool {
    &&& !y.contains('\n')
    &&& (strip_cr(y) == y || (open_target(x, host) && host_value(y) is None && host_value(
        strip_cr(y),
    ) is None && line_field(y, 0) is Some && line_field(strip_cr(y), 0) == line_field(y, 0)))
}

pub open spec fn reads_back(out: Seq<Seq<char>>, host: Seq<char>) -> bool {
    forall|k: int| 0 <= k < out.len() ==> reads_back_at(out.take(k), #[trigger] out[k], host)
}

proof fn lemma_reads_back_push(x: Seq<Seq<char>>, y: Seq<char>, host: Seq<char>)
    requires
        reads_back(x, host),
        reads_back_at(x, y, host),
    ensures
        reads_back(x.push(y), host),
{
    let z = x.push(y);
    assert forall|k: int| 0 <= k < z.len() implies reads_back_at(z.take(k), #[trigger] z[k], host) by {
        if k < x.len() {
            assert(z.take(k) =~= x.take(k));
            assert(z[k] == x[k]);
        } else {
            assert(z.take(k) =~= x);
        }
    }
}

proof fn lemma_directive_reads_back(x: Seq<Seq<char>>, i: int, v: Seq<char>, host: Seq<char>)
    requires
        0 <= i < 6,
        v.len() > 0,
        !v.contains('\n'),
        open_target(x, host),
    ensures
        reads_back_at(x, directive_line(i, v), host),
{
    lemma_directive_one_line(i, v);
    lemma_directive_strip(i, v);
    lemma_line_field_of_directive(i, v);
    lemma_line_field_of_directive(i, strip_cr(v));
}

proof fn lemma_missing_reads_back(x: Seq<Seq<char>>, m: ConfigModel, e: Seq<bool>, j: int, host: Seq<char>)
    requires
        0 <= j <= missing_from(m, e, 0).len(),
        reads_back(x, host),
        open_target(x, host),
        single_line_values(m),
    ensures
        reads_back(x + missing_from(m, e, 0).take(j), host),
    decreases j,
{
    let ys = missing_from(m, e, 0);
    if j == 0 {
        assert(x + ys.take(0) =~= x);
    } else {
        lemma_missing_reads_back(x, m, e, j - 1, host);
        lemma_missing_are_directives(m, e, 0);
        lemma_missing_shaped(m, e, 0);
        let pre = ys.take(j - 1);
        assert(directive_lines_of(pre, m)) by {
            assert forall|k: int| 0 <= k < pre.len() implies host_value(#[trigger] pre[k]) is None
                && (exists|i: int| 0 <= i < 6 && written(m, i) is Some && line_field(pre[k], 0) == Some(i)) by {
                assert(pre[k] == ys[k]);
            }
        }
        lemma_append_directives(x, pre, host, m);
        let y = ys[j - 1];
        let (i, v) = choose|i: int, v: Seq<char>| 0 <= i < 6 && written(m, i) == Some(v) && y
            == directive_line(i, v);
        assert(!v.contains('\n'));
        lemma_directive_reads_back(x + pre, i, v, host);
        lemma_reads_back_push(x + pre, y, host);
        assert((x + pre).push(y) =~= x + ys.take(j));
    }
}

proof fn lemma_missing_shaped(m: ConfigModel, e: Seq<bool>, i: int)
    requires
        0 <= i <= 6,
    ensures
        forall|k: int| 0 <= k < missing_from(m, e, i).len() ==> exists|j: int, v: Seq<char>|
            0 <= j < 6 && written(m, j) == Some(v) && #[trigger] missing_from(m, e, i)[k]
                == directive_line(j, v),
    decreases 6 - i,
{
    if i < 6 {
        lemma_missing_shaped(m, e, i + 1);
        let rest = missing_from(m, e, i + 1);
        let ys = missing_from(m, e, i);
        assert forall|k: int| 0 <= k < ys.len() implies exists|j: int, w: Seq<char>|
            0 <= j < 6 && written(m, j) == Some(w) && #[trigger] ys[k] == directive_line(j, w) by {
            match written(m, i) {
                Some(v) => {
                    if !e[i] {
                        if k > 0 {
                            assert(ys[k] == rest[k - 1]);
                        } else {
                            assert(ys[k] == directive_line(i, v));
                        }
                    } else {
                        assert(ys[k] == rest[k]);
                    }
                },
                None => {
                    assert(ys[k] == rest[k]);
                },
            }
        }
    }
}

proof fn lemma_edit_scan_reads_back(ls: Seq<Seq<char>>, host: Seq<char>, m: ConfigModel)
    requires
        all_plain(ls),
        single_line_values(m),
    ensures
        reads_back(edit_scan(ls, host, m).out, host),
        reads_back(edit_lines(ls, host, m).0, host),
    decreases ls.len(),
{
    let st = edit_scan(ls, host, m);
    lemma_edit_scan_keeps(ls, host, m);
    if ls.len() > 0 {
        let pre = ls.drop_last();
        let l = ls.last();
        assert(all_plain(pre)) by {
            assert forall|k: int| 0 <= k < pre.len() implies plain_line(#[trigger] pre[k]) by {
                assert(pre[k] == ls[k]);
            }
        }
        assert(plain_line(ls[ls.len() - 1]));
        lemma_edit_scan_reads_back(pre, host, m);
        lemma_edit_scan_keeps(pre, host, m);
        let s1 = edit_scan(pre, host, m);
        let ys = missing_from(m, s1.emitted, 0);
        if s1.inside {
            lemma_missing_reads_back(s1.out, m, s1.emitted, ys.len() as int, host);
            assert(ys.take(ys.len() as int) =~= ys);
        }
        assert(reads_back(flush(s1, m), host));
        lemma_reads_back_push(s1.out, l, host);
        lemma_reads_back_push(flush(s1, m), l, host);
        if host_value(l) is None && s1.inside {
            match line_field(l, 0) {
                Some(i) => {
                    lemma_line_field_range(l, 0);
                    match written(m, i) {
                        Some(v) => {
                            lemma_directive_reads_back(s1.out, i, v, host);
                            lemma_reads_back_push(s1.out, directive_line(i, v), host);
                        },
                        None => {},
                    }
                },
                None => {},
            }
        }
    }
    if st.inside {
        let ys = missing_from(m, st.emitted, 0);
        lemma_missing_reads_back(st.out, m, st.emitted, ys.len() as int, host);
        assert(ys.take(ys.len() as int) =~= ys);
    }
}

/// The lines of the edited text are the edited lines, but for carriage returns at the end of
/// rewritten directive lines.
proof fn lemma_update_reads_back(content: Seq<char>, host: Seq<char>, m: ConfigModel)
    requires
        all_plain(lines_of(content)),
        single_line_values(m),
    ensures
        same_but_directives(edit_lines(lines_of(content), host, m).0, lines_of(update_text(content, host, m).0), host),
{
    let ls = lines_of(content);
    let ls1 = edit_lines(ls, host, m).0;
    lemma_scan_not_found(ls, host, m);
    if edit_lines(ls, host, m).1 {
        lemma_edit_scan_reads_back(ls, host, m);
        lemma_lines_of_join(Seq::<char>::empty(), ls1);
        assert(Seq::<char>::empty() + join_lines(ls1) =~= join_lines(ls1));
        assert(lines_of(Seq::<char>::empty()) + strip_all(ls1) =~= strip_all(ls1));
    }
}

/// Applying the same edit twice to a text gives what applying it once gives.
pub proof fn law_update_idempotent(content: Seq<char>, host: Seq<char>, m: ConfigModel)
    requires
        all_plain(lines_of(content)),
        single_line_values(m),
    ensures
        update_text(update_text(content, host, m).0, host, m) == update_text(content, host, m),
{
    let ls = lines_of(content);
    let ls1 = edit_lines(ls, host, m).0;
    if edit_lines(ls, host, m).1 {
        lemma_update_reads_back(content, host, m);
        lemma_same_but_directives(ls1, lines_of(update_text(content, host, m).0), host, m);
        law_edit_idempotent(ls, host, m);
    }
}

/// In the text, editing the blocks of `host` leaves every line outside their bodies as it
/// was and where it was.
pub proof fn law_non_interference_text(content: Seq<char>, host: Seq<char>, m: ConfigModel)
    requires
        all_plain(lines_of(content)),
        single_line_values(m),
    ensures
        kept_lines(lines_of(update_text(content, host, m).0), host, true) == kept_lines(
            lines_of(content),
            host,
            true,
        ),
{
    lemma_update_reads_back(content, host, m);
    lemma_same_but_directives(
        edit_lines(lines_of(content), host, m).0,
        lines_of(update_text(content, host, m).0),
        host,
        m,
    );
    law_non_interference(lines_of(content), host, m);
}

/// In the text, each line of an edited block that starts with no modelled directive's
/// prefix stays as it was, in the same order among the lines the edit does not touch.
pub proof fn law_unknown_lines_kept_text(content: Seq<char>, host: Seq<char>, m: ConfigModel)
    requires
        all_plain(lines_of(content)),
        single_line_values(m),
    ensures
        kept_lines(lines_of(update_text(content, host, m).0), host, false) == kept_lines(
            lines_of(content),
            host,
            false,
        ),
{
    lemma_update_reads_back(content, host, m);
    lemma_same_but_directives(
        edit_lines(lines_of(content), host, m).0,
        lines_of(update_text(content, host, m).0),
        host,
        m,
    );
    law_unknown_lines_kept(lines_of(content), host, m);
}

/// In the text, a directive that the replacement record leaves out has no line in the edited
/// blocks afterwards.
pub proof fn law_absent_field_deleted_text(content: Seq<char>, host: Seq<char>, m: ConfigModel, i: int)
    requires
        all_plain(lines_of(content)),
        single_line_values(m),
        written(m, i) is None,
    ensures
        !body_has_field(lines_of(update_text(content, host, m).0), host, i),
{
    lemma_update_reads_back(content, host, m);
    lemma_same_but_directives(
        edit_lines(lines_of(content), host, m).0,
        lines_of(update_text(content, host, m).0),
        host,
        m,
    );
    law_absent_field_deleted(lines_of(content), host, m, i);
}

} // verus!
