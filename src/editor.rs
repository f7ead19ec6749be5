//! Rewriting one host's block in place, and appending a fresh block.
use vstd::prelude::*;
use crate::parser::{host_value, host_value_of, keyword_at, keyword_at_exec, lemma_keyword_after_ws, skip_ws};
use crate::record::{
    ConfigModel, FIELD_COUNT, SshConfig, append_missing, config_text, directive_line,
    directive_line_chars, keyword, keyword_chars, missing_from, none_emitted, written,
};
use crate::text::{chars_of, join, join_lines, lines_of, push_all, split_lines, string_of, trim_start, views};

verus! {

/// Line `l`, after its leading whitespace and with case ignored, starts with the keyword of
/// directive `i` and a space.
pub open spec fn has_prefix(l: Seq<char>, i: int) -> bool {
    let rest = trim_start(l);
    let n = keyword(i).len();
    rest.len() >= n + 1 && keyword_at(rest, 0, keyword(i), false) && rest[n as int] == ' '
}

/// The first directive, from `i` on, whose prefix starts line `l`.
pub open spec fn line_field(l: Seq<char>, i: int) -> Option<int>
    decreases 6 - i,
{
    if i >= 6 {
        None
    } else if has_prefix(l, i) {
        Some(i)
    } else {
        line_field(l, i + 1)
    }
}

/// Where an edit stands: the lines written so far, whether a target block is open, which
/// directives that block has had written, and whether a target block was seen.
pub struct EditState {
    pub out: Seq<Seq<char>>,
    pub inside: bool,
    pub emitted: Seq<bool>,
    pub found: bool,
}

pub open spec fn edit_start() -> EditState {
    EditState { out: seq![], inside: false, emitted: none_emitted(), found: false }
}

/// What is written when the open block closes: its missing directives, if it is a target.
pub open spec fn flush(st: EditState, m: ConfigModel) -> Seq<Seq<char>> {
    if st.inside {
        st.out + missing_from(m, st.emitted, 0)
    } else {
        st.out
    }
}

/// One line of an edit of the blocks of `host` with the record `m`.
pub open spec fn edit_step(st: EditState, l: Seq<char>, host: Seq<char>, m: ConfigModel) -> EditState {
    match host_value(l) {
        Some(h) => if h == host {
            EditState { out: st.out.push(l), inside: true, emitted: none_emitted(), found: true }
        } else {
            EditState { out: flush(st, m).push(l), inside: false, emitted: st.emitted, found: st.found }
        },
        None => if !st.inside {
            EditState { out: st.out.push(l), ..st }
        } else {
            match line_field(l, 0) {
                None => EditState { out: st.out.push(l), ..st },
                Some(i) => match written(m, i) {
                    Some(v) => if !st.emitted[i] {
                        EditState {
                            out: st.out.push(directive_line(i, v)),
                            emitted: st.emitted.update(i, true),
                            ..st
                        }
                    } else {
                        st
                    },
                    None => st,
                },
            }
        },
    }
}

/// The lines `ls` read in order by an edit.
pub open spec fn edit_scan(ls: Seq<Seq<char>>, host: Seq<char>, m: ConfigModel) -> EditState
    decreases ls.len(),
{
    if ls.len() == 0 {
        edit_start()
    } else {
        edit_step(edit_scan(ls.drop_last(), host, m), ls.last(), host, m)
    }
}

/// The lines after an edit of the blocks of `host` with `m`, and whether there was one.
pub open spec fn edit_lines(ls: Seq<Seq<char>>, host: Seq<char>, m: ConfigModel) -> (Seq<Seq<char>>, bool) {
    let st = edit_scan(ls, host, m);
    (flush(st, m), st.found)
}

/// The text after an edit, and whether a block of `host` was found: where none was, the
/// text is the one given.
pub open spec fn update_text(content: Seq<char>, host: Seq<char>, m: ConfigModel) -> (Seq<char>, bool) {
    let (ls, found) = edit_lines(lines_of(content), host, m);
    if found {
        (join_lines(ls), true)
    } else {
        (content, false)
    }
}

/// What goes between a non-empty text and a block appended to it, so that one blank line
/// stands between them.
pub open spec fn separator(c: Seq<char>) -> Seq<char> {
    if c.len() >= 2 && c[c.len() - 1] == '\n' && c[c.len() - 2] == '\n' {
        seq![]
    } else if c.len() >= 1 && c.last() == '\n' {
        seq!['\n']
    } else {
        seq!['\n', '\n']
    }
}

/// The text with a fresh block for `m` appended.
pub open spec fn add_text(c: Seq<char>, m: ConfigModel) -> Seq<char> {
    if c.len() == 0 {
        config_text(m)
    } else {
        c + separator(c) + config_text(m)
    }
}

/// The directive whose prefix starts line `l`, if any.
pub fn line_field_of(l: &Vec<char>) -> (r: Option<usize>)
    ensures
        match r {
            Some(i) => line_field(l@, 0) == Some(i as int) && i < FIELD_COUNT,
            None => line_field(l@, 0) is None,
        },
{
    let p = skip_ws(l);
    let mut i: usize = 0;
    while i < FIELD_COUNT
        invariant
            i <= FIELD_COUNT,
            p <= l@.len(),
            trim_start(l@) == l@.subrange(p as int, l@.len() as int),
            line_field(l@, 0) == line_field(l@, i as int),
        decreases FIELD_COUNT - i,
    {
        let k = keyword_chars(i);
        let n = k.len();
        proof {
            lemma_keyword_after_ws(l@, p as int, k@, false);
        }
        if l.len() - p >= n + 1 && keyword_at_exec(l, p, &k, false) && l[p + n] == ' ' {
            return Some(i);
        }
        i = i + 1;
    }
    None
}

/// Whether two character vectors are equal.
pub fn chars_equal(a: &Vec<char>, b: &Vec<char>) -> (r: bool)
    ensures
        r == (a@ == b@),
{
    if a.len() != b.len() {
        return false;
    }
    let mut i: usize = 0;
    while i < a.len()
        invariant
            i <= a@.len() == b@.len(),
            forall|j: int| 0 <= j < i ==> a@[j] == b@[j],
        decreases a@.len() - i,
    {
        if a[i] != b[i] {
            return false;
        }
        i = i + 1;
    }
    assert(a@ =~= b@);
    true
}

/// Rewrites the blocks of `host` in `content` with `updated_config`, leaving every other
/// line as it is. Inside such a block, the first line of each modelled directive is
/// replaced by the record's value, or dropped where the record has none; a later line of
/// the same directive is dropped; any other line stays. Directives of the record that the
/// block lacked are added at its end. Returns the new text, each line ended by a newline,
/// and whether a block of `host` was found; where none was, the text is returned unchanged.
pub fn update_ssh_config(content: &str, host: &str, updated_config: &SshConfig) -> (r: (
    String,
    bool,
))
    ensures
        (r.0@, r.1) == update_text(content@, host@, updated_config@),
{
    let chars = chars_of(content);
    let lines = split_lines(&chars);
    let target = chars_of(host);
    let ghost ls = views(lines@);
    let ghost m = updated_config@;
    let mut out: Vec<Vec<char>> = Vec::new();
    let mut inside = false;
    let mut emitted: Vec<bool> = vec![false, false, false, false, false, false];
    let mut found = false;
    assert(emitted@ =~= none_emitted());
    assert(views(out@) =~= Seq::<Seq<char>>::empty());
    assert(ls.subrange(0, 0) =~= Seq::<Seq<char>>::empty());
    let mut k: usize = 0;
    while k < lines.len()
        invariant
            k <= lines@.len(),
            ls == views(lines@),
            target@ == host@,
            m == updated_config@,
            emitted@.len() == FIELD_COUNT,
            edit_scan(ls.subrange(0, k as int), host@, m) == (EditState {
                out: views(out@),
                inside,
                emitted: emitted@,
                found,
            }),
        decreases lines@.len() - k,
    {
        assert(ls.subrange(0, k + 1).drop_last() =~= ls.subrange(0, k as int));
        let ghost l = ls[k as int];
        let ghost st = edit_scan(ls.subrange(0, k as int), host@, m);
        let ghost next = edit_step(st, l, host@, m);
        match host_value_of(&lines[k]) {
            Some(h) => {
                if chars_equal(&h, &target) {
                    out.push(copy_line(&lines[k]));
                    inside = true;
                    emitted = vec![false, false, false, false, false, false];
                    found = true;
                    assert(emitted@ =~= none_emitted());
                } else {
                    if inside {
                        append_missing(&mut out, updated_config, &emitted);
                    }
                    out.push(copy_line(&lines[k]));
                    inside = false;
                }
                assert(views(out@) =~= next.out);
            },
            None => {
                if !inside {
                    out.push(copy_line(&lines[k]));
                    assert(views(out@) =~= next.out);
                } else {
                    match line_field_of(&lines[k]) {
                        None => {
                            out.push(copy_line(&lines[k]));
                            assert(views(out@) =~= next.out);
                        },
                        Some(i) => {
                            match updated_config.written_value(i) {
                                Some(v) => {
                                    if !emitted[i] {
                                        out.push(directive_line_chars(i, &v));
                                        emitted.set(i, true);
                                        assert(views(out@) =~= next.out);
                                    }
                                },
                                None => {},
                            }
                        },
                    }
                }
            },
        }
        k = k + 1;
    }
    assert(ls.subrange(0, lines@.len() as int) =~= ls);
    if inside {
        append_missing(&mut out, updated_config, &emitted);
    }
    if found {
        (string_of(&join(&out)), true)
    } else {
        (content.to_owned(), false)
    }
}

fn copy_line(l: &Vec<char>) -> (r: Vec<char>)
    ensures
        r@ == l@,
{
    let mut r: Vec<char> = Vec::new();
    push_all(&mut r, l);
    r
}

/// `content` with a fresh block for `new_config` appended. A non-empty text is kept as it is
/// and followed by what it takes for one blank line to stand before the block.
pub fn add_ssh_config(content: &str, new_config: &SshConfig) -> (r: String)
    ensures
        r@ == add_text(content@, new_config@),
{
    let block = chars_of(new_config.to_config_string().as_str());
    let mut out = chars_of(content);
    let n = out.len();
    if n == 0 {
        return string_of(&block);
    }
    if n >= 2 && out[n - 1] == '\n' && out[n - 2] == '\n' {
    } else if out[n - 1] == '\n' {
        out.push('\n');
    } else {
        out.push('\n');
        out.push('\n');
    }
    assert(out@ =~= content@ + separator(content@));
    push_all(&mut out, &block);
    string_of(&out)
}

} // verus!
