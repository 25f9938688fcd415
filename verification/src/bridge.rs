//! What the commands of the user interface compute: the entries of the file
//! list and the names under which a recovered file is copied.

use vstd::prelude::*;
use crate::indexer::last_index_of;
use crate::text::{chars_of, decimal, decimal_digits, push_all, string_of};
use crate::util::begins4;

verus! {

/// One file of the mounted tree, as the file list shows it.
#[derive(Debug)]
pub struct FileListItem {
    pub name: String,
    pub path: String,
    /// The extension with its dot, or nothing.
    pub ext: String,
    /// Seconds since the Unix epoch.
    pub last_opened_ts: Option<i64>,
    pub last_modified_ts: Option<i64>,
}

/// How many files the list holds at most when no limit is asked for.
pub open spec fn default_limit() -> usize {
    50000
}

/// How many files the list holds at most.
pub fn list_limit(limit: Option<usize>) -> (n: usize)
    ensures
        n == match limit {
            Some(l) => l,
            None => default_limit(),
        },
{
    match limit {
        Some(l) => l,
        None => 50_000,
    }
}

/// Whether a list of `len` files is full under the limit `limit`.
pub fn list_is_full(len: usize, limit: usize) -> (r: bool)
    ensures
        r == (len >= limit),
{
    len >= limit
}

/// `path` without a leading `\\?\`.
pub open spec fn shown_path_of(path: Seq<char>) -> Seq<char> {
    if begins4(path, '\\', '\\', '?', '\\') {
        path.skip(4)
    } else {
        path
    }
}

/// The extension of the file name `name` with its dot: what stands from
/// the last dot on, and nothing where the name has no dot, where its only
/// dot stands first, or where the name is `..`.
pub open spec fn extension_of(name: Seq<char>) -> Seq<char> {
    let at = last_index_of(name, '.');
    if at <= 0 || name == seq!['.', '.'] {
        Seq::<char>::empty()
    } else {
        name.skip(at)
    }
}

/// Where the last dot stands in `p`, if anywhere.
fn last_dot(p: &Vec<char>) -> (r: Option<usize>)
    ensures
        match r {
            Some(at) => at < p.len() && at == last_index_of(p@, '.'),
            None => last_index_of(p@, '.') == -1,
        },
{
    let mut i: usize = p.len();
    assert(p@.take(i as int) =~= p@);
    while i > 0
        invariant
            i <= p.len(),
            last_index_of(p@, '.') == last_index_of(p@.take(i as int), '.'),
        decreases i,
    {
        if p[i - 1] == '.' {
            return Some(i - 1);
        }
        assert(p@.take(i as int).drop_last() =~= p@.take(i - 1));
        i -= 1;
    }
    None
}

/// The characters of `p` from `from` on.
fn tail_of(p: &Vec<char>, from: usize) -> (r: Vec<char>)
    requires
        from <= p.len(),
    ensures
        r@ == p@.skip(from as int),
{
    let mut r: Vec<char> = Vec::new();
    let mut i: usize = from;
    while i < p.len()
        invariant
            from <= i <= p.len(),
            r@ == p@.subrange(from as int, i as int),
        decreases p.len() - i,
    {
        r.push(p[i]);
        i += 1;
        assert(p@.subrange(from as int, i as int) == p@.subrange(from as int, i as int - 1).push(
            p@[i as int - 1],
        ));
    }
    assert(p@.subrange(from as int, p.len() as int) =~= p@.skip(from as int));
    r
}

/// The path as the file list shows it: without a leading `\\?\`.
pub fn shown_path(path: &str) -> (r: String)
    ensures
        r@ == shown_path_of(path@),
{
    let p = chars_of(path);
    if p.len() >= 4 && p[0] == '\\' && p[1] == '\\' && p[2] == '?' && p[3] == '\\' {
        string_of(&tail_of(&p, 4))
    } else {
        string_of(&p)
    }
}

/// The extension of the file name `name`, with its dot.
pub fn extension(name: &str) -> (r: String)
    ensures
        r@ == extension_of(name@),
{
    let p = chars_of(name);
    let dots = p.len() == 2 && p[0] == '.' && p[1] == '.';
    proof {
        if dots {
            assert(p@ =~= seq!['.', '.']);
        }
    }
    match last_dot(&p) {
        Some(at) => {
            if at == 0 || dots {
                String::new()
            } else {
                string_of(&tail_of(&p, at))
            }
        },
        None => String::new(),
    }
}

/// The entry of the file list for the file `name` at `path`.
pub fn file_list_item(
    name: String,
    path: &str,
    last_opened_ts: Option<i64>,
    last_modified_ts: Option<i64>,
) -> (item: FileListItem)
    ensures
        item.name == name,
        item.path@ == shown_path_of(path@),
        item.ext@ == extension_of(name@),
        item.last_opened_ts == last_opened_ts,
        item.last_modified_ts == last_modified_ts,
{
    let ext = extension(name.as_str());
    FileListItem { name, path: shown_path(path), ext, last_opened_ts, last_modified_ts }
}

/// The `n`th name under which a copy of the file `name` is put down when
/// the names before it are taken: ` (n)` goes before the last dot, or at
/// the end where the name has no dot.
pub open spec fn copy_name_of(name: Seq<char>, n: nat) -> Seq<char> {
    let at = last_index_of(name, '.');
    let mark = seq![' ', '('] + decimal(n) + seq![')'];
    if at >= 0 {
        name.take(at) + mark + name.skip(at)
    } else {
        name + mark
    }
}

/// The `n`th name for a copy of the file `name`.
pub fn copy_name(name: &str, n: u64) -> (r: String)
    ensures
        r@ == copy_name_of(name@, n as nat),
{
    let p = chars_of(name);
    let cut: usize = match last_dot(&p) {
        Some(at) => at,
        None => p.len(),
    };
    let mut out: Vec<char> = Vec::new();
    let mut i: usize = 0;
    while i < cut
        invariant
            i <= cut <= p.len(),
            out@ == p@.take(i as int),
        decreases cut - i,
    {
        out.push(p[i]);
        i += 1;
        assert(p@.take(i as int) == p@.take(i as int - 1).push(p@[i as int - 1]));
    }
    out.push(' ');
    out.push('(');
    push_all(&mut out, &decimal_digits(n));
    out.push(')');
    push_all(&mut out, &tail_of(&p, cut));
    proof {
        let mark = seq![' ', '('] + decimal(n as nat) + seq![')'];
        if cut == p.len() {
            assert(p@.take(cut as int) =~= p@);
            assert(p@.skip(cut as int) =~= Seq::<char>::empty());
            assert(out@ =~= p@ + mark);
        } else {
            assert(out@ =~= p@.take(cut as int) + mark + p@.skip(cut as int));
        }
    }
    string_of(&out)
}

} // verus!
