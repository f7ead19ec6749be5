//! Reading a configuration text into its ordered records.
use vstd::prelude::*;
use crate::record::{
    ConfigModel, FIELD_COUNT, SshConfig, empty_model, host_keyword, keyword, keyword_chars,
};
use crate::text::{
    chars_of, copy_range, char_is_ws, is_ws, lines_of, split_lines, string_of, trim, trim_chars,
    trim_start, views,
};

verus! {

/// The code of `c`, with an ASCII capital taken to its small letter.
pub open spec fn lower_code(c: char) -> u32 {
    let u = c as u32;
    if 0x41 <= u <= 0x5a {
        (u + 32) as u32
    } else {
        u
    }
}

/// `c` stands for keyword letter `k` when case is ignored. With `folded`, the two non-ASCII
/// letters whose simple case folding is an ASCII letter count too (long s, Kelvin sign).
pub open spec fn char_matches(c: char, k: char, folded: bool) -> bool {
    lower_code(c) == lower_code(k) || (folded && ((lower_code(k) == 0x73 && c as u32 == 0x17f)
        || (lower_code(k) == 0x6b && c as u32 == 0x212a)))
}

/// `k` stands in `l` from `pos` on, case ignored.
pub open spec fn keyword_at(l: Seq<char>, pos: int, k: Seq<char>, folded: bool) -> bool {
    0 <= pos && pos + k.len() <= l.len() && forall|j: int|
        0 <= j < k.len() ==> #[trigger] char_matches(l[pos + j], k[j], folded)
}

/// The host a line opens a block for: `Host`, in any case, at the start of the line, then
/// whitespace and at least one more character; the value is the rest, trimmed.
pub open spec fn host_value(l: Seq<char>) -> Option<Seq<char>> {
    if l.len() >= 6 && keyword_at(l, 0, host_keyword(), true) && is_ws(l[4]) {
        Some(trim(l.subrange(4, l.len() as int)))
    } else {
        None
    }
}

/// The value a line gives directive `i`: optional leading whitespace, the keyword in any
/// case, whitespace and at least one more character; the value is the rest, trimmed.
pub open spec fn directive_value(l: Seq<char>, i: int) -> Option<Seq<char>> {
    let rest = trim_start(l);
    let n = keyword(i).len();
    if rest.len() >= n + 2 && keyword_at(rest, 0, keyword(i), true) && is_ws(rest[n as int]) {
        Some(trim(rest.subrange(n as int, rest.len() as int)))
    } else {
        None
    }
}

/// The first directive, from `i` on, that a line gives a value, with that value.
pub open spec fn first_directive(l: Seq<char>, i: int) -> Option<(int, Seq<char>)>
    decreases 6 - i,
{
    if i >= 6 {
        None
    } else {
        match directive_value(l, i) {
            Some(v) => Some((i, v)),
            None => first_directive(l, i + 1),
        }
    }
}

/// `m` after a line of its block has been read.
pub open spec fn apply_line(m: ConfigModel, l: Seq<char>) -> ConfigModel {
    match first_directive(l, 0) {
        Some((i, v)) => ConfigModel { host: m.host, fields: m.fields.update(i, Some(v)) },
        None => m,
    }
}

/// Where reading stands: the records closed so far, and the open one.
pub struct ParseState {
    pub done: Seq<ConfigModel>,
    pub cur: Option<ConfigModel>,
}

pub open spec fn parse_step(st: ParseState, l: Seq<char>) -> ParseState {
    match host_value(l) {
        Some(h) => ParseState {
            done: match st.cur {
                Some(c) => st.done.push(c),
                None => st.done,
            },
            cur: Some(empty_model(h)),
        },
        None => match st.cur {
            Some(c) => ParseState { done: st.done, cur: Some(apply_line(c, l)) },
            None => st,
        },
    }
}

/// Reading the lines `ls` in order.
pub open spec fn parse_scan(ls: Seq<Seq<char>>) -> ParseState
    decreases ls.len(),
{
    if ls.len() == 0 {
        ParseState { done: seq![], cur: None }
    } else {
        parse_step(parse_scan(ls.drop_last()), ls.last())
    }
}

/// The records of the lines `ls`, in the order of their blocks.
pub open spec fn parse_lines(ls: Seq<Seq<char>>) -> Seq<ConfigModel> {
    let st = parse_scan(ls);
    match st.cur {
        Some(c) => st.done.push(c),
        None => st.done,
    }
}

/// The records of a configuration text.
pub open spec fn parse_text(s: Seq<char>) -> Seq<ConfigModel> {
    parse_lines(lines_of(s))
}

pub open spec fn models(v: Seq<SshConfig>) -> Seq<ConfigModel> {
    Seq::new(v.len(), |i: int| v[i]@)
}

pub open spec fn opt_model(o: Option<SshConfig>) -> Option<ConfigModel> {
    match o {
        Some(c) => Some(c@),
        None => None,
    }
}

/// The first record of `ms` for `host`.
pub open spec fn find_host(ms: Seq<ConfigModel>, host: Seq<char>) -> Option<ConfigModel>
    decreases ms.len(),
{
    if ms.len() == 0 {
        None
    } else if ms[0].host == host {
        Some(ms[0])
    } else {
        find_host(ms.drop_first(), host)
    }
}

/// Whether `k` stands in `l` from `pos` on, case ignored.
pub fn keyword_at_exec(l: &Vec<char>, pos: usize, k: &Vec<char>, folded: bool) -> (r: bool)
    ensures
        r == keyword_at(l@, pos as int, k@, folded),
{
    if pos > l.len() || k.len() > l.len() - pos {
        return false;
    }
    let n = l.len();
    let mut j: usize = 0;
    while j < k.len()
        invariant
            n == l@.len(),
            pos + k@.len() <= l@.len(),
            j <= k@.len(),
            forall|t: int| 0 <= t < j ==> #[trigger] char_matches(l@[pos + t], k@[t], folded),
        decreases k@.len() - j,
    {
        assert(pos + j < l@.len());
        if !char_matches_exec(l[pos + j], k[j], folded) {
            return false;
        }
        j = j + 1;
    }
    true
}

fn lower_code_exec(c: char) -> (r: u32)
    ensures
        r == lower_code(c),
{
    let u = c as u32;
    if 0x41 <= u && u <= 0x5a {
        u + 32
    } else {
        u
    }
}

fn char_matches_exec(c: char, k: char, folded: bool) -> (r: bool)
    ensures
        r == char_matches(c, k, folded),
{
    let lc = lower_code_exec(c);
    let lk = lower_code_exec(k);
    lc == lk || (folded && ((lk == 0x73 && c as u32 == 0x17f) || (lk == 0x6b && c as u32
        == 0x212a)))
}

/// The index of the first character of `l` that is not whitespace.
pub fn skip_ws(l: &Vec<char>) -> (r: usize)
    ensures
        r <= l@.len(),
        trim_start(l@) == l@.subrange(r as int, l@.len() as int),
{
    let n = l.len();
    let mut i: usize = 0;
    assert(l@.subrange(0, n as int) =~= l@);
    while i < n && char_is_ws(l[i])
        invariant
            i <= n == l@.len(),
            trim_start(l@) == trim_start(l@.subrange(i as int, n as int)),
        decreases n - i,
    {
        assert(l@.subrange(i as int, n as int).drop_first() =~= l@.subrange(i + 1, n as int));
        i = i + 1;
    }
    i
}

/// Looking for a keyword after the leading whitespace of `l` is looking at index `p` of `l`.
pub proof fn lemma_keyword_after_ws(l: Seq<char>, p: int, k: Seq<char>, folded: bool)
    requires
        0 <= p <= l.len(),
        trim_start(l) == l.subrange(p, l.len() as int),
    ensures
        keyword_at(l, p, k, folded) == keyword_at(trim_start(l), 0, k, folded),
{
    let rest = trim_start(l);
    if keyword_at(l, p, k, folded) {
        assert forall|j: int| 0 <= j < k.len() implies #[trigger] char_matches(
            rest[0 + j],
            k[j],
            folded,
        ) by {
            assert(char_matches(l[p + j], k[j], folded));
        }
    }
    if keyword_at(rest, 0, k, folded) {
        assert forall|j: int| 0 <= j < k.len() implies #[trigger] char_matches(
            l[p + j],
            k[j],
            folded,
        ) by {
            assert(char_matches(rest[0 + j], k[j], folded));
        }
    }
}

/// The host that line `l` opens a block for, if it is a `Host` line.
pub fn host_value_of(l: &Vec<char>) -> (r: Option<Vec<char>>)
    ensures
        match r {
            Some(v) => host_value(l@) == Some(v@),
            None => host_value(l@) is None,
        },
{
    let k = vec!['H', 'o', 's', 't'];
    assert(k@ =~= host_keyword());
    if l.len() >= 6 && keyword_at_exec(l, 0, &k, true) && char_is_ws(l[4]) {
        let rest = copy_range(l, 4, l.len());
        Some(trim_chars(&rest))
    } else {
        None
    }
}

/// The value that line `l` gives directive `i`, if any.
pub fn directive_value_of(l: &Vec<char>, i: usize) -> (r: Option<Vec<char>>)
    requires
        i < FIELD_COUNT,
    ensures
        match r {
            Some(v) => directive_value(l@, i as int) == Some(v@),
            None => directive_value(l@, i as int) is None,
        },
{
    let p = skip_ws(l);
    let k = keyword_chars(i);
    let n = k.len();
    let ghost rest = trim_start(l@);
    proof {
        lemma_keyword_after_ws(l@, p as int, k@, true);
    }
    if l.len() - p >= n + 2 && keyword_at_exec(l, p, &k, true) && char_is_ws(l[p + n]) {
        let v = copy_range(l, p + n, l.len());
        assert(v@ =~= rest.subrange(n as int, rest.len() as int));
        Some(trim_chars(&v))
    } else {
        None
    }
}

/// Reads one line of an open record into it.
fn apply_directive(c: &mut SshConfig, l: &Vec<char>)
    ensures
        final(c)@ == apply_line(old(c)@, l@),
{
    let mut i: usize = 0;
    while i < FIELD_COUNT
        invariant
            i <= FIELD_COUNT,
            *c == *old(c),
            first_directive(l@, 0) == first_directive(l@, i as int),
        decreases FIELD_COUNT - i,
    {
        match directive_value_of(l, i) {
            Some(v) => {
                c.set_field(i, string_of(&v));
                return;
            },
            None => {},
        }
        i = i + 1;
    }
}

/// The records of a configuration text, in the order of their blocks. Lines before the
/// first `Host` line, and lines that set no modelled directive, are passed over; where a
/// block sets a directive twice, the later value stands.
pub fn parse_ssh_config(content: &str) -> (r: Vec<SshConfig>)
    ensures
        models(r@) == parse_text(content@),
{
    let chars = chars_of(content);
    let lines = split_lines(&chars);
    let ghost ls = views(lines@);
    let mut configs: Vec<SshConfig> = Vec::new();
    let mut cur: Option<SshConfig> = None;
    let mut k: usize = 0;
    while k < lines.len()
        invariant
            k <= lines@.len(),
            ls == views(lines@),
            models(configs@) == parse_scan(ls.subrange(0, k as int)).done,
            opt_model(cur) == parse_scan(ls.subrange(0, k as int)).cur,
        decreases lines@.len() - k,
    {
        assert(ls.subrange(0, k + 1).drop_last() =~= ls.subrange(0, k as int));
        let ghost pre = parse_scan(ls.subrange(0, k as int));
        match host_value_of(&lines[k]) {
            Some(h) => {
                match cur {
                    Some(c) => {
                        configs.push(c);
                    },
                    None => {},
                }
                assert(models(configs@) =~= parse_step(pre, ls[k as int]).done);
                let c = SshConfig::new(string_of(&h));
                cur = Some(c);
            },
            None => {
                cur = match cur {
                    Some(c) => {
                        let mut c = c;
                        apply_directive(&mut c, &lines[k]);
                        Some(c)
                    },
                    None => None,
                };
            },
        }
        k = k + 1;
    }
    assert(ls.subrange(0, lines@.len() as int) =~= ls);
    match cur {
        Some(c) => {
            configs.push(c);
        },
        None => {},
    }
    assert(models(configs@) =~= parse_text(content@));
    configs
}

/// The first record of a configuration text whose host is `host`, compared exactly.
pub fn find_config_by_host(content: &str, host: &str) -> (r: Option<SshConfig>)
    ensures
        opt_model(r) == find_host(parse_text(content@), host@),
{
    let mut configs = parse_ssh_config(content);
    let target = host.to_owned();
    let ghost ms = models(configs@);
    let mut k: usize = 0;
    assert(ms.subrange(0, ms.len() as int) =~= ms);
    while k < configs.len()
        invariant
            k <= configs@.len(),
            ms == models(configs@),
            ms == parse_text(content@),
            target@ == host@,
            find_host(ms, host@) == find_host(ms.subrange(k as int, ms.len() as int), host@),
        decreases configs@.len() - k,
    {
        assert(ms.subrange(k as int, ms.len() as int).drop_first() =~= ms.subrange(
            k + 1,
            ms.len() as int,
        ));
        let ghost sub = ms.subrange(k as int, ms.len() as int);
        assert(sub[0] == ms[k as int] && ms[k as int] == configs@[k as int]@);
        if configs[k].host.eq(&target) {
            assert(find_host(sub, host@) == Some(sub[0]));
            return Some(configs.remove(k));
        }
        k = k + 1;
    }
    assert(ms.subrange(ms.len() as int, ms.len() as int) =~= Seq::<ConfigModel>::empty());
    None
}

} // verus!
