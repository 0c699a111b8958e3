//! XDG base-directory layout of the daemon.
//!
//! The configuration lives at `$XDG_CONFIG_HOME/scryd/config.toml` (else
//! `$HOME/.config/scryd/config.toml`), the data at `$XDG_DATA_HOME/scryd`
//! (else `$HOME/.local/share/scryd`), the model assets under
//! `<data_dir>/assets`, the runtime files under `$XDG_RUNTIME_DIR/scryd`.
//! A base that already ends in `scryd` is used as it is.  Empty variables
//! count as unset.  The environment is read by the caller; these functions
//! take the variables' values.

use vstd::prelude::*;

use crate::text::{chars_eq, chars_of, push_range, string_from_chars};

verus! {

/// Why a path could not be resolved.
#[derive(Debug, Clone, Copy, PartialEq, Eq, Structural)]
pub enum XdgError {
    /// Neither the XDG variable nor `HOME` is set; names the path wanted.
    UnresolvableXdgPath(XdgPath),
    /// `XDG_RUNTIME_DIR` is not set.
    MissingRuntimeDir,
}

/// The path that could not be resolved.
#[derive(Debug, Clone, Copy, PartialEq, Eq, Structural)]
pub enum XdgPath {
    ConfigPath,
    DataDir,
}

impl XdgPath {
    pub open spec fn name_spec(self) -> Seq<char> {
        match self {
            XdgPath::ConfigPath => "config_path"@,
            XdgPath::DataDir => "data_dir"@,
        }
    }

    /// The name of the path, as an error reports it.
    pub fn as_str(&self) -> (s: &'static str)
        ensures
            s@ == self.name_spec(),
    {
        match self {
            XdgPath::ConfigPath => "config_path",
            XdgPath::DataDir => "data_dir",
        }
    }
}

pub open spec fn scryd_spec() -> Seq<char> {
    seq!['s', 'c', 'r', 'y', 'd']
}

/// The last component of a path (`Path::file_name`): trailing slashes and
/// `.` components are skipped; none for a root, an empty path or `..`.
pub open spec fn file_name_spec(p: Seq<char>) -> Option<Seq<char>>
    decreases p.len(),
{
    if p.len() == 0 {
        None
    } else if p.last() == '/' {
        file_name_spec(p.drop_last())
    } else {
        let seg = last_segment(p);
        if seg == seq!['.'] {
            file_name_spec(p.take(p.len() - 1))
        } else if seg == seq!['.', '.'] {
            None
        } else {
            Some(seg)
        }
    }
}

/// The characters after the last `/`.
pub open spec fn last_segment(p: Seq<char>) -> Seq<char>
    decreases p.len(),
{
    if p.len() == 0 || p.last() == '/' {
        Seq::empty()
    } else {
        last_segment(p.drop_last()).push(p.last())
    }
}

/// `base` joined with a relative component (`Path::join`).
pub open spec fn join_spec(base: Seq<char>, comp: Seq<char>) -> Seq<char> {
    if base.len() == 0 || base.last() == '/' { base + comp } else { base + seq!['/'] + comp }
}

/// `base/scryd`, unless `base` already ends in `scryd`.
pub open spec fn scryd_under(base: Seq<char>) -> Seq<char> {
    if file_name_spec(base) == Some(scryd_spec()) { base } else { join_spec(base, scryd_spec()) }
}

/// A variable's value that counts as set.
pub open spec fn set_value(v: Option<Seq<char>>) -> Option<Seq<char>> {
    match v {
        Some(s) => if s.len() > 0 { Some(s) } else { None },
        None => None,
    }
}

pub open spec fn opt_view(v: Option<&str>) -> Option<Seq<char>> {
    match v {
        Some(s) => Some(s@),
        None => None,
    }
}

pub open spec fn config_path_spec(xdg_config_home: Option<Seq<char>>, home: Option<Seq<char>>) -> Result<Seq<char>, XdgError> {
    match set_value(xdg_config_home) {
        Some(base) => Ok(join_spec(scryd_under(base), "config.toml"@)),
        None => match set_value(home) {
            Some(h) => Ok(join_spec(join_spec(join_spec(h, ".config"@), scryd_spec()), "config.toml"@)),
            None => Err(XdgError::UnresolvableXdgPath(XdgPath::ConfigPath)),
        },
    }
}

pub open spec fn data_dir_spec(xdg_data_home: Option<Seq<char>>, home: Option<Seq<char>>) -> Result<Seq<char>, XdgError> {
    match set_value(xdg_data_home) {
        Some(base) => Ok(scryd_under(base)),
        None => match set_value(home) {
            Some(h) => Ok(join_spec(join_spec(join_spec(h, ".local"@), "share"@), scryd_spec())),
            None => Err(XdgError::UnresolvableXdgPath(XdgPath::DataDir)),
        },
    }
}

fn last_segment_exec(p: &Vec<char>, end: usize) -> (start: usize)
    requires
        end <= p.len(),
    ensures
        start <= end,
        p@.subrange(start as int, end as int) == last_segment(p@.take(end as int)),
{
    let mut start = end;
    assert(p@.subrange(end as int, end as int) =~= Seq::<char>::empty());
    while start > 0 && p[start - 1] != '/'
        invariant
            start <= end <= p.len(),
            last_segment(p@.take(end as int)) == last_segment(p@.take(start as int)) + p@.subrange(start as int, end as int),
        decreases start,
    {
        assert(p@.take(start as int).drop_last() =~= p@.take(start - 1));
        assert(p@.subrange(start - 1, end as int) =~= seq![p@[start - 1]] + p@.subrange(start as int, end as int));
        assert(last_segment(p@.take(start as int)) == last_segment(p@.take(start - 1)).push(p@[start - 1]));
        assert(last_segment(p@.take(start - 1)).push(p@[start - 1]) + p@.subrange(start as int, end as int)
            =~= last_segment(p@.take(start - 1)) + p@.subrange(start - 1, end as int));
        start -= 1;
    }
    assert(last_segment(p@.take(start as int)) =~= Seq::<char>::empty());
    assert(Seq::<char>::empty() + p@.subrange(start as int, end as int) =~= p@.subrange(start as int, end as int));
    start
}

/// Whether the last component of `p` is `scryd`.
fn ends_in_scryd(p: &Vec<char>) -> (r: bool)
    ensures
        r == (file_name_spec(p@) == Some(scryd_spec())),
{
    let mut end = p.len();
    assert(p@.take(end as int) =~= p@);
    loop
        invariant
            end <= p.len(),
            file_name_spec(p@) == file_name_spec(p@.take(end as int)),
        decreases end,
    {
        if end == 0 {
            return false;
        }
        if p[end - 1] == '/' {
            assert(p@.take(end as int).drop_last() =~= p@.take(end - 1));
            end -= 1;
        } else {
            let start = last_segment_exec(p, end);
            let seg_len = end - start;
            if seg_len == 1 && p[start] == '.' {
                assert(p@.subrange(start as int, end as int) =~= seq!['.']);
                assert(p@.take(end as int).take(end - 1) =~= p@.take(end - 1));
                end -= 1;
            } else if seg_len == 2 && p[start] == '.' && p[start + 1] == '.' {
                assert(p@.subrange(start as int, end as int) =~= seq!['.', '.']);
                return false;
            } else {
                proof {
                    if seg_len == 1 {
                        assert(p@.subrange(start as int, end as int) != seq!['.']) by {
                            assert(p@.subrange(start as int, end as int)[0] != '.');
                        }
                    }
                    if seg_len == 2 {
                        assert(p@.subrange(start as int, end as int) != seq!['.', '.']) by {
                            assert(p@.subrange(start as int, end as int)[0] != '.'
                                || p@.subrange(start as int, end as int)[1] != '.');
                        }
                    }
                }
                let seg = crate::text::copy_chars(p, start, end);
                let target = chars_of("scryd");
                proof {
                    reveal_strlit("scryd");
                    assert("scryd"@ =~= scryd_spec());
                }
                return chars_eq(&seg, &target);
            }
        }
    }
}

/// Appends a relative component to a path.
fn push_component(base: &mut Vec<char>, comp: &str)
    ensures
        final(base)@ == join_spec(old(base)@, comp@),
{
    if base.len() > 0 && base[base.len() - 1] != '/' {
        base.push('/');
    }
    let c = chars_of(comp);
    push_range(base, &c, 0, c.len());
    assert(c@.subrange(0, c.len() as int) =~= c@);
    assert(final(base)@ =~= join_spec(old(base)@, comp@));
}

fn set_chars(v: Option<&str>) -> (r: Option<Vec<char>>)
    ensures
        match r {
            Some(c) => set_value(opt_view(v)) == Some(c@),
            None => set_value(opt_view(v)) is None,
        },
{
    match v {
        Some(s) => {
            let c = chars_of(s);
            if c.len() > 0 { Some(c) } else { None }
        },
        None => None,
    }
}

fn scryd_under_exec(base: Vec<char>) -> (r: Vec<char>)
    ensures
        r@ == scryd_under(base@),
{
    if ends_in_scryd(&base) {
        base
    } else {
        let mut b = base;
        push_component(&mut b, "scryd");
        proof {
            reveal_strlit("scryd");
            assert("scryd"@ =~= scryd_spec());
        }
        b
    }
}

/// The configuration file path, from `XDG_CONFIG_HOME` and `HOME`.
pub fn config_path(xdg_config_home: Option<&str>, home: Option<&str>) -> (r: Result<String, XdgError>)
    ensures
        match (r, config_path_spec(opt_view(xdg_config_home), opt_view(home))) {
            (Ok(p), Ok(q)) => p@ == q,
            (Err(e), Err(f)) => e == f,
            _ => false,
        },
{
    proof {
        reveal_strlit("scryd");
        assert("scryd"@ =~= scryd_spec());
    }
    match set_chars(xdg_config_home) {
        Some(base) => {
            let mut dir = scryd_under_exec(base);
            push_component(&mut dir, "config.toml");
            Ok(string_from_chars(dir.as_slice()))
        },
        None => match set_chars(home) {
            Some(h) => {
                let mut p = h;
                push_component(&mut p, ".config");
                push_component(&mut p, "scryd");
                push_component(&mut p, "config.toml");
                Ok(string_from_chars(p.as_slice()))
            },
            None => Err(XdgError::UnresolvableXdgPath(XdgPath::ConfigPath)),
        },
    }
}

fn data_dir_chars(xdg_data_home: Option<&str>, home: Option<&str>) -> (r: Result<Vec<char>, XdgError>)
    ensures
        match (r, data_dir_spec(opt_view(xdg_data_home), opt_view(home))) {
            (Ok(p), Ok(q)) => p@ == q,
            (Err(e), Err(f)) => e == f,
            _ => false,
        },
{
    proof {
        reveal_strlit("scryd");
        assert("scryd"@ =~= scryd_spec());
    }
    match set_chars(xdg_data_home) {
        Some(base) => Ok(scryd_under_exec(base)),
        None => match set_chars(home) {
            Some(h) => {
                let mut p = h;
                push_component(&mut p, ".local");
                push_component(&mut p, "share");
                push_component(&mut p, "scryd");
                Ok(p)
            },
            None => Err(XdgError::UnresolvableXdgPath(XdgPath::DataDir)),
        },
    }
}

/// The data directory, from `XDG_DATA_HOME` and `HOME`.
pub fn data_dir(xdg_data_home: Option<&str>, home: Option<&str>) -> (r: Result<String, XdgError>)
    ensures
        match (r, data_dir_spec(opt_view(xdg_data_home), opt_view(home))) {
            (Ok(p), Ok(q)) => p@ == q,
            (Err(e), Err(f)) => e == f,
            _ => false,
        },
{
    match data_dir_chars(xdg_data_home, home) {
        Ok(p) => Ok(string_from_chars(p.as_slice())),
        Err(e) => Err(e),
    }
}

/// The model assets directory: `<data_dir>/assets`.
pub fn assets_dir(xdg_data_home: Option<&str>, home: Option<&str>) -> (r: Result<String, XdgError>)
    ensures
        match (r, data_dir_spec(opt_view(xdg_data_home), opt_view(home))) {
            (Ok(p), Ok(q)) => p@ == join_spec(q, "assets"@),
            (Err(e), Err(f)) => e == f,
            _ => false,
        },
{
    match data_dir_chars(xdg_data_home, home) {
        Ok(p) => {
            let mut p = p;
            push_component(&mut p, "assets");
            Ok(string_from_chars(p.as_slice()))
        },
        Err(e) => Err(e),
    }
}

/// The runtime directory, from `XDG_RUNTIME_DIR`, which is mandatory.
pub fn runtime_dir(xdg_runtime_dir: Option<&str>) -> (r: Result<String, XdgError>)
    ensures
        match set_value(opt_view(xdg_runtime_dir)) {
            Some(base) => (r matches Ok(p) && p@ == scryd_under(base)),
            None => r == Err::<String, XdgError>(XdgError::MissingRuntimeDir),
        },
{
    match set_chars(xdg_runtime_dir) {
        Some(base) => Ok(string_from_chars(scryd_under_exec(base).as_slice())),
        None => Err(XdgError::MissingRuntimeDir),
    }
}

} // verus!
