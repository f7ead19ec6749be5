//! One host's connection record, its model, and the directive lines that stand for it.
use vstd::prelude::*;
use crate::text::{chars_of, join, join_lines, push_all, string_of, views};

verus! {

/// What a record says: its host and, for each modelled directive, its value if any.
/// The directives are indexed in their fixed order: HostName, User, Port, IdentityFile,
/// ProxyCommand and the `#pass` secret.
pub struct ConfigModel {
    pub host: Seq<char>,
    pub fields: Seq<Option<Seq<char>>>,
}

/// How many directives a record models.
pub const FIELD_COUNT: usize = 6;

/// The keyword of directive `i`, as it is written.
pub open spec fn keyword(i: int) -> Seq<char> {
    if i == 0 {
        seq!['H', 'o', 's', 't', 'N', 'a', 'm', 'e']
    } else if i == 1 {
        seq!['U', 's', 'e', 'r']
    } else if i == 2 {
        seq!['P', 'o', 'r', 't']
    } else if i == 3 {
        seq!['I', 'd', 'e', 'n', 't', 'i', 't', 'y', 'F', 'i', 'l', 'e']
    } else if i == 4 {
        seq!['P', 'r', 'o', 'x', 'y', 'C', 'o', 'm', 'm', 'a', 'n', 'd']
    } else {
        seq!['#', 'p', 'a', 's', 's']
    }
}

/// The keyword that opens a block.
pub open spec fn host_keyword() -> Seq<char> {
    seq!['H', 'o', 's', 't']
}

pub open spec fn opt_view(o: Option<String>) -> Option<Seq<char>> {
    match o {
        Some(s) => Some(s@),
        None => None,
    }
}

/// A record with no directive set.
pub open spec fn empty_model(host: Seq<char>) -> ConfigModel {
    ConfigModel { host, fields: seq![None, None, None, None, None, None] }
}

/// The value of directive `i` that gets written: an empty value counts as none.
pub open spec fn written(m: ConfigModel, i: int) -> Option<Seq<char>> {
    match m.fields[i] {
        Some(v) => if v.len() > 0 {
            Some(v)
        } else {
            None
        },
        None => None,
    }
}

/// The line that opens the block of `host`.
pub open spec fn header_line(host: Seq<char>) -> Seq<char> {
    host_keyword() + seq![' '] + host
}

/// The line of directive `i` with value `v`, indented by two spaces.
pub open spec fn directive_line(i: int, v: Seq<char>) -> Seq<char> {
    seq![' ', ' '] + keyword(i) + seq![' '] + v
}

/// The lines, in the fixed order from directive `i` on, of the directives of `m` that
/// have a value and are not marked in `emitted`.
pub open spec fn missing_from(m: ConfigModel, emitted: Seq<bool>, i: int) -> Seq<Seq<char>>
    decreases 6 - i,
{
    if i >= 6 {
        seq![]
    } else {
        let rest = missing_from(m, emitted, i + 1);
        match written(m, i) {
            Some(v) => if !emitted[i] {
                seq![directive_line(i, v)] + rest
            } else {
                rest
            },
            None => rest,
        }
    }
}

pub open spec fn none_emitted() -> Seq<bool> {
    seq![false, false, false, false, false, false]
}

/// The lines of a freshly written block for `m`.
pub open spec fn block_lines(m: ConfigModel) -> Seq<Seq<char>> {
    seq![header_line(m.host)] + missing_from(m, none_emitted(), 0)
}

/// The text of a freshly written block for `m`.
pub open spec fn config_text(m: ConfigModel) -> Seq<char> {
    join_lines(block_lines(m))
}

/// One host's connection record.
#[derive(Debug, Clone)]
pub struct SshConfig {
    pub host: String,
    pub hostname: Option<String>,
    pub user: Option<String>,
    pub port: Option<String>,
    pub identity_file: Option<String>,
    pub password: Option<String>,
    pub proxy_command: Option<String>,
}

impl View for SshConfig {
    type V = ConfigModel;

    open spec fn view(&self) -> ConfigModel {
        ConfigModel {
            host: self.host@,
            fields: seq![
                opt_view(self.hostname),
                opt_view(self.user),
                opt_view(self.port),
                opt_view(self.identity_file),
                opt_view(self.proxy_command),
                opt_view(self.password),
            ],
        }
    }
}

/// The characters of keyword `i`.
pub fn keyword_chars(i: usize) -> (r: Vec<char>)
    requires
        i < FIELD_COUNT,
    ensures
        r@ == keyword(i as int),
{
    let r = if i == 0 {
        vec!['H', 'o', 's', 't', 'N', 'a', 'm', 'e']
    } else if i == 1 {
        vec!['U', 's', 'e', 'r']
    } else if i == 2 {
        vec!['P', 'o', 'r', 't']
    } else if i == 3 {
        vec!['I', 'd', 'e', 'n', 't', 'i', 't', 'y', 'F', 'i', 'l', 'e']
    } else if i == 4 {
        vec!['P', 'r', 'o', 'x', 'y', 'C', 'o', 'm', 'm', 'a', 'n', 'd']
    } else {
        vec!['#', 'p', 'a', 's', 's']
    };
    assert(r@ =~= keyword(i as int));
    r
}

/// The characters of a directive line.
pub fn directive_line_chars(i: usize, v: &Vec<char>) -> (r: Vec<char>)
    requires
        i < FIELD_COUNT,
    ensures
        r@ == directive_line(i as int, v@),
{
    let mut r: Vec<char> = vec![' ', ' '];
    let k = keyword_chars(i);
    push_all(&mut r, &k);
    r.push(' ');
    push_all(&mut r, v);
    assert(r@ =~= directive_line(i as int, v@));
    r
}

/// The characters of a block's opening line.
pub fn header_line_chars(host: &Vec<char>) -> (r: Vec<char>)
    ensures
        r@ == header_line(host@),
{
    let mut r: Vec<char> = vec!['H', 'o', 's', 't', ' '];
    push_all(&mut r, host);
    assert(r@ =~= header_line(host@));
    r
}

impl SshConfig {
    /// A record for `host` with no directive set.
    pub fn new(host: String) -> (r: SshConfig)
        ensures
            r@ == empty_model(host@),
    {
        let r = SshConfig {
            host,
            hostname: None,
            user: None,
            port: None,
            identity_file: None,
            password: None,
            proxy_command: None,
        };
        assert(r@.fields =~= empty_model(host@).fields);
        r
    }

    /// Directive `i` of the record.
    pub fn field(&self, i: usize) -> (r: &Option<String>)
        requires
            i < FIELD_COUNT,
        ensures
            opt_view(*r) == self@.fields[i as int],
    {
        if i == 0 {
            &self.hostname
        } else if i == 1 {
            &self.user
        } else if i == 2 {
            &self.port
        } else if i == 3 {
            &self.identity_file
        } else if i == 4 {
            &self.proxy_command
        } else {
            &self.password
        }
    }

    /// Sets directive `i` of the record to `v`.
    pub fn set_field(&mut self, i: usize, v: String)
        requires
            i < FIELD_COUNT,
        ensures
            final(self)@ == (ConfigModel {
                host: old(self)@.host,
                fields: old(self)@.fields.update(i as int, Some(v@)),
            }),
    {
        if i == 0 {
            self.hostname = Some(v);
        } else if i == 1 {
            self.user = Some(v);
        } else if i == 2 {
            self.port = Some(v);
        } else if i == 3 {
            self.identity_file = Some(v);
        } else if i == 4 {
            self.proxy_command = Some(v);
        } else {
            self.password = Some(v);
        }
        assert(self@.fields =~= old(self)@.fields.update(i as int, Some(v@)));
    }

    /// The value of directive `i` that gets written, if any: an empty value counts as none.
    pub fn written_value(&self, i: usize) -> (r: Option<Vec<char>>)
        requires
            i < FIELD_COUNT,
        ensures
            match r {
                Some(v) => written(self@, i as int) == Some(v@),
                None => written(self@, i as int) is None,
            },
    {
        match self.field(i) {
            Some(s) => {
                let v = chars_of(s.as_str());
                if v.len() > 0 {
                    Some(v)
                } else {
                    None
                }
            },
            None => None,
        }
    }

    /// The text of a freshly written block: the `Host` line, then one line, indented by two
    /// spaces, for each directive with a non-empty value, in the fixed order.
    pub fn to_config_string(&self) -> (r: String)
        ensures
            r@ == config_text(self@),
    {
        let host = chars_of(self.host.as_str());
        let mut lines: Vec<Vec<char>> = Vec::new();
        lines.push(header_line_chars(&host));
        append_missing_fields(&mut lines, self, false, false, false, false, false, false);
        assert(seq![false, false, false, false, false, false] =~= none_emitted());
        assert(views(lines@) =~= block_lines(self@));
        string_of(&join(&lines))
    }
}

/// Appends to `lines`, in the fixed order, a line for each directive of `config` that has a
/// value and is not flagged as already written.
pub fn append_missing_fields(
    lines: &mut Vec<Vec<char>>,
    config: &SshConfig,
    has_hostname: bool,
    has_user: bool,
    has_port: bool,
    has_identity: bool,
    has_proxy: bool,
    has_password: bool,
)
    ensures
        views(final(lines)@) == views(old(lines)@) + missing_from(
            config@,
            seq![has_hostname, has_user, has_port, has_identity, has_proxy, has_password],
            0,
        ),
{
    let emitted = vec![has_hostname, has_user, has_port, has_identity, has_proxy, has_password];
    append_missing(lines, config, &emitted);
}

/// Appends to `lines` the lines of `missing_from(config, emitted, 0)`.
pub fn append_missing(lines: &mut Vec<Vec<char>>, config: &SshConfig, emitted: &Vec<bool>)
    requires
        emitted@.len() == FIELD_COUNT,
    ensures
        views(final(lines)@) == views(old(lines)@) + missing_from(config@, emitted@, 0),
{
    let mut i: usize = 0;
    while i < FIELD_COUNT
        invariant
            i <= FIELD_COUNT,
            emitted@.len() == FIELD_COUNT,
            views(old(lines)@) + missing_from(config@, emitted@, 0) == views(lines@)
                + missing_from(config@, emitted@, i as int),
        decreases FIELD_COUNT - i,
    {
        let ghost before = views(lines@);
        match config.written_value(i) {
            Some(v) => {
                if !emitted[i] {
                    lines.push(directive_line_chars(i, &v));
                    assert(views(lines@) =~= before.push(directive_line(i as int, v@)));
                    assert(before + missing_from(config@, emitted@, i as int) =~= views(lines@)
                        + missing_from(config@, emitted@, i + 1));
                }
            },
            None => {},
        }
        i = i + 1;
    }
    assert(missing_from(config@, emitted@, 6) =~= seq![]);
    assert(views(lines@) + missing_from(config@, emitted@, 6) =~= views(lines@));
}

} // verus!
