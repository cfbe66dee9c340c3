//! Which files are traces.

use crate::text::chars_of;
use vstd::prelude::*;
use vstd::string::*;

verus! {

/// What to do with the path that an analysis is asked for.
#[derive(Clone, Copy, Debug, PartialEq, Eq, Structural)]
pub enum InputAction {
    /// It is a trace: analyze it.
    Analyze,
    /// It is a directory: look for traces in it.
    Scan,
    /// It is a file of another kind.
    NotSupported,
    /// It does not exist.
    NotFound,
}

/// What to do with an entry of a directory.
#[derive(Clone, Copy, Debug, PartialEq, Eq, Structural)]
pub enum EntryAction {
    /// It is a directory: look for traces in it.
    Descend,
    /// It is a trace.
    Take,
    /// It is neither.
    Ignore,
}

/// A string ends with another.
pub open spec fn has_suffix(text: Seq<char>, suffix: Seq<char>) -> bool {
    suffix.len() <= text.len() && text.skip(text.len() - suffix.len()) == suffix
}

/// The name of a trace, which may be compressed.
pub open spec fn is_qlog_name(name: Seq<char>) -> bool {
    has_suffix(name, ".sqlog"@) || has_suffix(name, ".sqlog.gz"@) || has_suffix(
        name,
        ".sqlog.zst"@,
    )
}

/// The name, if there is one, is that of a trace.
pub open spec fn is_qlog(name: Option<&str>) -> bool {
    match name {
        Some(name) => is_qlog_name(name@),
        None => false,
    }
}

/// The extension of a trace: `qlog::SQLOG_EXT`, which is `.sqlog`.
#[verifier::external_body]
fn sqlog_ext() -> (extension: &'static str)
    ensures
        extension@ == ".sqlog"@,
{
    qlog::SQLOG_EXT
}

/// The extension of a trace compressed by gzip: `qlog::SQLOG_GZ_EXT`, which is
/// `.sqlog.gz`.
#[verifier::external_body]
fn sqlog_gz_ext() -> (extension: &'static str)
    ensures
        extension@ == ".sqlog.gz"@,
{
    qlog::SQLOG_GZ_EXT
}

/// The extension of a trace compressed by zstd: `qlog::SQLOG_ZST_EXT`, which is
/// `.sqlog.zst`.
#[verifier::external_body]
fn sqlog_zst_ext() -> (extension: &'static str)
    ensures
        extension@ == ".sqlog.zst"@,
{
    qlog::SQLOG_ZST_EXT
}

/// Whether a string ends with another.
fn ends_with(text: &str, suffix: &str) -> (r: bool)
    ensures
        r == has_suffix(text@, suffix@),
{
    let whole = chars_of(text);
    let end = chars_of(suffix);
    if end.len() > whole.len() {
        return false;
    }
    let start = whole.len() - end.len();
    let mut i: usize = 0;
    while i < end.len()
        invariant
            whole@ == text@,
            end@ == suffix@,
            start + end.len() == whole.len(),
            i <= end@.len(),
            forall|k: int| 0 <= k < i ==> whole@[start + k] == end@[k],
        decreases end@.len() - i,
    {
        if whole[start + i] != end[i] {
            assert(text@.skip(start as int)[i as int] != suffix@[i as int]);
            return false;
        }
        i += 1;
    }
    assert(text@.skip(start as int) =~= suffix@);
    true
}

/// Whether a file with the given name, if it has one that is text, is a trace.
pub fn is_qlog_path(name: Option<&str>) -> (r: bool)
    ensures
        r == is_qlog(name),
{
    match name {
        Some(name) => ends_with(name, sqlog_ext()) || ends_with(name, sqlog_gz_ext())
            || ends_with(name, sqlog_zst_ext()),
        None => false,
    }
}

/// What to do with the path that an analysis is asked for.
pub fn input_action(is_file: bool, is_dir: bool, name: Option<&str>) -> (action: InputAction)
    ensures
        action == (if is_file {
            if is_qlog(name) {
                InputAction::Analyze
            } else {
                InputAction::NotSupported
            }
        } else if is_dir {
            InputAction::Scan
        } else {
            InputAction::NotFound
        }),
{
    if is_file {
        if is_qlog_path(name) {
            InputAction::Analyze
        } else {
            InputAction::NotSupported
        }
    } else if is_dir {
        InputAction::Scan
    } else {
        InputAction::NotFound
    }
}

/// What to do with an entry of a directory: directories are searched, links to
/// them are not, and files count as traces by their names, links to files too.
pub fn entry_action(
    is_dir: bool,
    is_file: bool,
    is_symlink: bool,
    target_is_file: bool,
    name: Option<&str>,
) -> (action: EntryAction)
    ensures
        action == (if is_dir {
            EntryAction::Descend
        } else if (is_file || (is_symlink && target_is_file)) && is_qlog(name) {
            EntryAction::Take
        } else {
            EntryAction::Ignore
        }),
{
    if is_dir {
        EntryAction::Descend
    } else if (is_file || (is_symlink && target_is_file)) && is_qlog_path(name) {
        EntryAction::Take
    } else {
        EntryAction::Ignore
    }
}

/// Law: the names of traces are those that end with one of the three extensions, whatever
/// comes before it.
pub proof fn law_extensions_tell_traces(stem: Seq<char>)
    ensures
        is_qlog_name(stem + ".sqlog"@),
        is_qlog_name(stem + ".sqlog.gz"@),
        is_qlog_name(stem + ".sqlog.zst"@),
{
    assert((stem + ".sqlog"@).skip(stem.len() as int) =~= ".sqlog"@);
    assert((stem + ".sqlog.gz"@).skip(stem.len() as int) =~= ".sqlog.gz"@);
    assert((stem + ".sqlog.zst"@).skip(stem.len() as int) =~= ".sqlog.zst"@);
}

/// Law: what is the name of a trace is something followed by one of the three extensions.
pub proof fn law_traces_have_extensions(name: Seq<char>)
    requires
        is_qlog_name(name),
    ensures
        exists|stem: Seq<char>|
            #![trigger stem.len()]
            name == stem + ".sqlog"@ || name == stem + ".sqlog.gz"@ || name == stem
                + ".sqlog.zst"@,
{
    let extension = if has_suffix(name, ".sqlog"@) {
        ".sqlog"@
    } else if has_suffix(name, ".sqlog.gz"@) {
        ".sqlog.gz"@
    } else {
        ".sqlog.zst"@
    };
    let stem = name.take(name.len() - extension.len());
    assert(name =~= stem + extension);
    assert(stem.len() >= 0);
}

/// Law: a file without a name that is text is no trace.
pub proof fn law_nameless_files_are_no_traces()
    ensures
        !is_qlog(None),
        forall|name: &str| #[trigger] is_qlog(Some(name)) == is_qlog_name(name@),
{
}

} // verus!
