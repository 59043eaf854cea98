//! File paths of Unix systems: byte strings, with `/` between components.

use crate::text::{handed, law_text_shown, lossy, quoted, quoted_part, shown, write_text};
use vstd::prelude::*;
use vstd::slice::slice_subrange;
use vstd::utf8::encode_utf8;

verus! {

/// The byte between the components of a path.
pub const SEPARATOR: u8 = 0x2f;

/// The byte between the stem and the extension of a file name.
pub const DOT: u8 = 0x2e;

/// A path to a file.
pub struct FilePath {
    pub bytes: Vec<u8>,
}

impl View for FilePath {
    type V = Seq<u8>;

    open spec fn view(&self) -> Seq<u8> {
        self.bytes@
    }
}

/// A path without what follows its last real component: separators at the end, and
/// `.` components other than one at the very beginning.
pub open spec fn trimmed(path: Seq<u8>) -> Seq<u8>
    decreases path.len(),
{
    let len = path.len() as int;
    if len >= 1 && path[len - 1] == SEPARATOR {
        trimmed(path.drop_last())
    } else if len >= 2 && path[len - 1] == DOT && path[len - 2] == SEPARATOR {
        trimmed(path.drop_last())
    } else {
        path
    }
}

/// Where the last component of a path begins: behind the last separator.
pub open spec fn component_start(path: Seq<u8>) -> int
    decreases path.len(),
{
    if path.len() == 0 {
        0
    } else if path.last() == SEPARATOR {
        path.len() as int
    } else {
        component_start(path.drop_last())
    }
}

/// Where the last dot of a file name is, or -1.
pub open spec fn last_dot(name: Seq<u8>) -> int
    decreases name.len(),
{
    if name.len() == 0 {
        -1
    } else if name.last() == DOT {
        name.len() - 1
    } else {
        last_dot(name.drop_last())
    }
}

/// The last component of a path, unless that is the root, `.` or `..`.
pub open spec fn file_name(path: Seq<u8>) -> Option<Seq<u8>> {
    let rest = trimmed(path);
    let name = rest.skip(component_start(rest));
    if name.len() == 0 || name == seq![DOT] || name == seq![DOT, DOT] {
        None
    } else {
        Some(name)
    }
}

/// A file name up to its last dot; all of it where it has no dot but a leading one.
pub open spec fn stem_of(name: Seq<u8>) -> Seq<u8> {
    if last_dot(name) <= 0 {
        name
    } else {
        name.take(last_dot(name))
    }
}

/// The file name of a path without its extension.
pub open spec fn file_stem(path: Seq<u8>) -> Option<Seq<u8>> {
    match file_name(path) {
        Some(name) => Some(stem_of(name)),
        None => None,
    }
}

/// What follows the last dot of the file name, unless that dot leads the name.
pub open spec fn extension(path: Seq<u8>) -> Option<Seq<u8>> {
    match file_name(path) {
        Some(name) if last_dot(name) > 0 => Some(name.skip(last_dot(name) + 1)),
        _ => None,
    }
}

/// An extension with the dot before it; nothing for the empty extension.
pub open spec fn dotted(ext: Seq<u8>) -> Seq<u8> {
    if ext.len() == 0 {
        ext
    } else {
        seq![DOT] + ext
    }
}

/// A path cut short by as many bytes as its extension has.
pub open spec fn bare(path: Seq<u8>) -> Seq<u8> {
    match extension(path) {
        Some(ext) => path.take(path.len() - ext.len()),
        None => path,
    }
}

/// A path with the extension of its file name replaced or added. Where no file name is
/// left once the old extension is cut off, nothing is added.
pub open spec fn with_extension(path: Seq<u8>, ext: Seq<u8>) -> Seq<u8> {
    let base = bare(path);
    match file_stem(base) {
        Some(stem) => {
            let rest = trimmed(base);
            rest.take(component_start(rest)) + stem + dotted(ext)
        },
        None => base,
    }
}

/// A path below a directory; an absolute path stands for itself.
pub open spec fn join(dir: Seq<u8>, name: Seq<u8>) -> Seq<u8> {
    if name.len() > 0 && name[0] == SEPARATOR {
        name
    } else if dir.len() == 0 || dir.last() == SEPARATOR {
        dir + name
    } else {
        dir + seq![SEPARATOR] + name
    }
}

/// Where the trimmed path ends.
fn trimmed_len(path: &[u8]) -> (len: usize)
    ensures
        len <= path@.len(),
        path@.take(len as int) == trimmed(path@),
{
    let mut len: usize = path.len();
    assert(path@.take(len as int) =~= path@);
    while len >= 1 && (path[len - 1] == SEPARATOR || (len >= 2 && path[len - 1] == DOT && path[len
        - 2] == SEPARATOR))
        invariant
            len <= path@.len(),
            trimmed(path@.take(len as int)) == trimmed(path@),
        decreases len,
    {
        assert(path@.take(len as int).drop_last() =~= path@.take(len - 1));
        len = len - 1;
    }
    len
}

/// Where the last component of the first `len` bytes begins.
fn find_component(path: &[u8], len: usize) -> (start: usize)
    requires
        len <= path@.len(),
    ensures
        start == component_start(path@.take(len as int)),
        start <= len,
{
    let mut start: usize = len;
    while start >= 1 && path[start - 1] != SEPARATOR
        invariant
            start <= len <= path@.len(),
            component_start(path@.take(start as int)) == component_start(path@.take(len as int)),
        decreases start,
    {
        assert(path@.take(start as int).drop_last() =~= path@.take(start - 1));
        start = start - 1;
    }
    start
}

/// Where the last dot of a name is; 0 where it has no dot but a leading one.
fn find_dot(name: &[u8]) -> (dot: usize)
    ensures
        last_dot(name@) <= 0 ==> dot == 0,
        last_dot(name@) > 0 ==> dot == last_dot(name@),
        dot <= name@.len(),
        dot > 0 ==> dot < name@.len(),
{
    let mut end: usize = name.len();
    assert(name@.take(end as int) =~= name@);
    while end >= 1 && name[end - 1] != DOT
        invariant
            end <= name@.len(),
            last_dot(name@.take(end as int)) == last_dot(name@),
        decreases end,
    {
        assert(name@.take(end as int).drop_last() =~= name@.take(end - 1));
        end = end - 1;
    }
    if end >= 1 {
        end - 1
    } else {
        0
    }
}

/// Where the file name stands in a path, if it has one.
fn name_span(path: &[u8]) -> (span: Option<(usize, usize)>)
    ensures
        match span {
            Some((start, end)) => {
                &&& start <= end <= path@.len()
                &&& path@.take(end as int) == trimmed(path@)
                &&& start == component_start(trimmed(path@))
                &&& file_name(path@) == Some(path@.subrange(start as int, end as int))
            },
            None => file_name(path@) is None,
        },
{
    let end = trimmed_len(path);
    let start = find_component(path, end);
    assert(trimmed(path@).skip(start as int) =~= path@.subrange(start as int, end as int));
    let ghost name = path@.subrange(start as int, end as int);
    let len: usize = end - start;
    assert(name == seq![DOT] <==> len == 1 && name[0] == DOT) by {
        assert(len == 1 && name[0] == DOT ==> name =~= seq![DOT]);
        assert(seq![DOT].len() == 1 && seq![DOT][0] == DOT);
    }
    assert(name == seq![DOT, DOT] <==> len == 2 && name[0] == DOT && name[1] == DOT) by {
        assert(len == 2 && name[0] == DOT && name[1] == DOT ==> name =~= seq![DOT, DOT]);
        let dots = seq![DOT, DOT];
        assert(dots.len() == 2 && dots[0] == DOT && dots[1] == DOT);
    }
    if len == 0 || (len == 1 && path[start] == DOT) || (len == 2 && path[start] == DOT
        && path[start + 1] == DOT) {
        None
    } else {
        Some((start, end))
    }
}

impl FilePath {
    /// The path that a string spells.
    pub fn from_str(text: &str) -> (path: Self)
        ensures
            path@ == encode_utf8(text@),
    {
        let mut bytes: Vec<u8> = Vec::new();
        bytes.extend_from_slice(text.as_bytes());
        assert(bytes@ =~= encode_utf8(text@));
        FilePath { bytes }
    }

    /// The file name without its extension.
    pub fn file_stem(&self) -> (stem: Option<&[u8]>)
        ensures
            match stem {
                Some(s) => file_stem(self@) == Some(s@),
                None => file_stem(self@) is None,
            },
    {
        let path = self.bytes.as_slice();
        match name_span(path) {
            Some((start, end)) => {
                let name = slice_subrange(path, start, end);
                let dot = find_dot(name);
                if dot > 0 {
                    Some(slice_subrange(name, 0, dot))
                } else {
                    Some(name)
                }
            },
            None => None,
        }
    }

    /// The extension of the file name.
    pub fn extension(&self) -> (ext: Option<&[u8]>)
        ensures
            match ext {
                Some(e) => extension(self@) == Some(e@),
                None => extension(self@) is None,
            },
    {
        let path = self.bytes.as_slice();
        match name_span(path) {
            Some((start, end)) => {
                let name = slice_subrange(path, start, end);
                let dot = find_dot(name);
                if dot > 0 {
                    let ext = slice_subrange(name, dot + 1, name.len());
                    assert(ext@ =~= name@.skip(dot + 1));
                    Some(ext)
                } else {
                    None
                }
            },
            None => None,
        }
    }

    /// The same path with another extension.
    pub fn with_extension(&self, ext: &str) -> (path: Self)
        requires
            !encode_utf8(ext@).contains(SEPARATOR),
        ensures
            path@ == with_extension(self@, encode_utf8(ext@)),
    {
        let whole = self.bytes.as_slice();
        proof {
            lemma_extension_fits(self@);
        }
        let cut: usize = match self.extension() {
            Some(old) => old.len(),
            None => 0,
        };
        let base = slice_subrange(whole, 0, whole.len() - cut);
        assert(base@ =~= bare(self@));
        let mut bytes: Vec<u8> = Vec::new();
        match name_span(base) {
            Some((start, end)) => {
                let name = slice_subrange(base, start, end);
                let dot = find_dot(name);
                let stem_end: usize = if dot > 0 {
                    start + dot
                } else {
                    end
                };
                bytes.extend_from_slice(slice_subrange(base, 0, stem_end));
                assert(bytes@ =~= trimmed(base@).take(start as int) + stem_of(name@));
                let ext_bytes = ext.as_bytes();
                if ext_bytes.len() > 0 {
                    bytes.push(DOT);
                    bytes.extend_from_slice(ext_bytes);
                }
                assert(bytes@ =~= with_extension(self@, encode_utf8(ext@)));
            },
            None => {
                bytes.extend_from_slice(base);
                assert(bytes@ =~= base@);
            },
        }
        FilePath { bytes }
    }

    /// The path of a file below this directory.
    pub fn join(&self, name: &str) -> (path: Self)
        ensures
            path@ == join(self@, encode_utf8(name@)),
    {
        let mut bytes: Vec<u8> = Vec::new();
        let name_bytes = name.as_bytes();
        if !(name_bytes.len() > 0 && name_bytes[0] == SEPARATOR) {
            bytes.extend_from_slice(self.bytes.as_slice());
            assert(bytes@ =~= self@);
            if bytes.len() > 0 && bytes[bytes.len() - 1] != SEPARATOR {
                bytes.push(SEPARATOR);
            }
        }
        bytes.extend_from_slice(name_bytes);
        assert(bytes@ =~= join(self@, encode_utf8(name@)));
        FilePath { bytes }
    }

    /// The path as text, for people to read.
    pub fn display(&self) -> (text: String)
        ensures
            text@ == shown(self@),
    {
        lossy(self.bytes.as_slice())
    }
}

impl std::fmt::Debug for FilePath {
    /// Print the path between quotes, with escapes for what does not print.
    fn fmt(&self, f: &mut std::fmt::Formatter<'_>) -> (r: std::fmt::Result)
        ensures
            handed(*final(f)) == handed(*old(f)) + (seq!['"'] + quoted_part(self@) + seq!['"']),
    {
        write_text(f, quoted(self.bytes.as_slice()).as_str())
    }
}

proof fn lemma_component_start_bounds(path: Seq<u8>)
    ensures
        0 <= component_start(path) <= path.len(),
        forall|i: int| component_start(path) <= i < path.len() ==> path[i] != SEPARATOR,
        component_start(path) > 0 ==> path[component_start(path) - 1] == SEPARATOR,
    decreases path.len(),
{
    if path.len() > 0 && path.last() != SEPARATOR {
        let init = path.drop_last();
        lemma_component_start_bounds(init);
        assert forall|i: int| component_start(path) <= i < path.len() implies path[i]
            != SEPARATOR by {
            if i < init.len() {
                assert(init[i] == path[i]);
            }
        }
    }
}

/// What holds no separator does not move the start of the last component.
proof fn lemma_component_start_append(path: Seq<u8>, tail: Seq<u8>)
    requires
        !tail.contains(SEPARATOR),
    ensures
        component_start(path + tail) == component_start(path),
    decreases tail.len(),
{
    if tail.len() == 0 {
        assert(path + tail =~= path);
    } else {
        assert((path + tail).drop_last() =~= path + tail.drop_last());
        assert(tail[tail.len() - 1] != SEPARATOR);
        assert forall|b: u8| tail.drop_last().contains(b) implies tail.contains(b) by {
            let k = choose|k: int| 0 <= k < tail.len() - 1 && tail.drop_last()[k] == b;
            assert(tail[k] == b);
        }
        lemma_component_start_append(path, tail.drop_last());
    }
}

proof fn lemma_last_dot_bounds(name: Seq<u8>)
    ensures
        -1 <= last_dot(name) < name.len(),
    decreases name.len(),
{
    if name.len() > 0 && name.last() != DOT {
        lemma_last_dot_bounds(name.drop_last());
    }
}

/// The last dot stands before what holds no dot.
proof fn lemma_last_dot_append(name: Seq<u8>, tail: Seq<u8>)
    requires
        !tail.contains(DOT),
    ensures
        last_dot(name + tail) == last_dot(name),
    decreases tail.len(),
{
    if tail.len() == 0 {
        assert(name + tail =~= name);
    } else {
        assert((name + tail).drop_last() =~= name + tail.drop_last());
        assert(tail[tail.len() - 1] != DOT);
        assert forall|b: u8| tail.drop_last().contains(b) implies tail.contains(b) by {
            let k = choose|k: int| 0 <= k < tail.len() - 1 && tail.drop_last()[k] == b;
            assert(tail[k] == b);
        }
        lemma_last_dot_append(name, tail.drop_last());
    }
}

proof fn lemma_trimmed_prefix(path: Seq<u8>)
    ensures
        trimmed(path).len() <= path.len(),
        trimmed(path) == path.take(trimmed(path).len() as int),
    decreases path.len(),
{
    if trimmed(path) != path {
        lemma_trimmed_prefix(path.drop_last());
        assert(path.drop_last().take(trimmed(path).len() as int) =~= path.take(
            trimmed(path).len() as int,
        ));
    } else {
        assert(path.take(path.len() as int) =~= path);
    }
}

/// Cutting into what is trimmed anyway makes no difference.
proof fn lemma_trimmed_take(path: Seq<u8>, n: int)
    requires
        trimmed(path).len() <= n <= path.len(),
    ensures
        trimmed(path.take(n)) == trimmed(path),
    decreases path.len(),
{
    if n == path.len() {
        assert(path.take(n) =~= path);
    } else {
        assert(path.drop_last().take(n) =~= path.take(n));
        lemma_trimmed_take(path.drop_last(), n);
    }
}

/// The extension is no longer than the path.
proof fn lemma_extension_fits(path: Seq<u8>)
    ensures
        extension(path) matches Some(ext) ==> ext.len() <= path.len(),
{
    let rest = trimmed(path);
    lemma_trimmed_prefix(path);
    lemma_component_start_bounds(rest);
    lemma_last_dot_bounds(rest.skip(component_start(rest)));
}

/// What follows the last dot holds no dot.
proof fn lemma_after_last_dot(name: Seq<u8>)
    ensures
        forall|i: int| last_dot(name) < i < name.len() ==> name[i] != DOT,
    decreases name.len(),
{
    if name.len() > 0 && name.last() != DOT {
        let init = name.drop_last();
        lemma_after_last_dot(init);
        lemma_last_dot_bounds(init);
        assert forall|i: int| last_dot(name) < i < name.len() implies name[i] != DOT by {
            if i < init.len() {
                assert(init[i] == name[i]);
            }
        }
    }
}

/// A name made of a stem, a dot and what holds neither dot nor separator, put behind
/// a directory, has that stem and that extension.
pub(crate) proof fn lemma_named(dir: Seq<u8>, stem: Seq<u8>, ext: Seq<u8>)
    requires
        dir.len() == 0 || dir.last() == SEPARATOR,
        stem.len() > 0,
        !stem.contains(SEPARATOR),
        !ext.contains(SEPARATOR),
        !ext.contains(DOT),
        ext.len() > 0 || stem != seq![DOT],
    ensures
        ({
            let path = dir + stem + seq![DOT] + ext;
            &&& file_stem(path) == Some(stem)
            &&& extension(path) == Some(ext)
            &&& trimmed(path) == path
            &&& component_start(path) == dir.len()
        }),
{
    let name = stem + seq![DOT] + ext;
    let path = dir + stem + seq![DOT] + ext;
    assert(path =~= dir + name);
    assert forall|k: int| 0 <= k < name.len() implies name[k] != SEPARATOR by {
        if k < stem.len() {
            assert(name[k] == stem[k]);
        } else if k > stem.len() {
            assert(name[k] == ext[k - stem.len() - 1]);
        }
    }
    assert(trimmed(path) == path) by {
        if ext.len() > 0 {
            assert(path.last() == ext[ext.len() - 1]);
        } else {
            assert(path.last() == DOT);
            assert(path[path.len() - 2] == name[name.len() - 2]);
        }
    }
    lemma_component_start_append(dir, name);
    assert(component_start(dir) == dir.len());
    assert(path.skip(dir.len() as int) =~= name);
    assert(name.len() >= 2);
    if name == seq![DOT, DOT] {
        assert(seq![DOT, DOT].len() == 2);
        assert(stem =~= seq![DOT]);
        assert(false);
    }
    assert(name != seq![DOT]) by {
        assert(seq![DOT].len() == 1);
    }
    lemma_last_dot_append(stem + seq![DOT], ext);
    assert((stem + seq![DOT]).last() == DOT);
    assert(last_dot(name) == stem.len());
    assert(name.skip(stem.len() as int + 1) =~= ext);
    assert(name.take(stem.len() as int) =~= stem);
}

/// Cutting off the extension leaves the stem, where it leaves a file name at all.
proof fn lemma_bare_stem(path: Seq<u8>)
    requires
        file_name(path) is Some,
        file_name(bare(path)) is Some,
    ensures
        file_stem(bare(path)) == file_stem(path),
{
    if extension(path) is Some {
        let rest = trimmed(path);
        let start = component_start(rest);
        let name = rest.skip(start);
        let ext = extension(path)->0;
        let n = path.len() - ext.len();
        lemma_trimmed_prefix(path);
        lemma_component_start_bounds(rest);
        lemma_last_dot_bounds(name);
        if n >= rest.len() {
            lemma_trimmed_take(path, n);
        } else {
            assert(path.take(n) =~= rest.take(n));
            lemma_cut_name(rest, n);
        }
    }
}

/// A path whose end is cut off within the extension keeps the stem, unless its file
/// name becomes `..`.
proof fn lemma_cut_name(rest: Seq<u8>, n: int)
    requires
        ({
            let name = rest.skip(component_start(rest));
            &&& last_dot(name) > 0
            &&& component_start(rest) + last_dot(name) < n < rest.len()
        }),
        file_name(rest.take(n)) is Some,
    ensures
        file_stem(rest.take(n)) == Some(stem_of(rest.skip(component_start(rest)))),
{
    let start = component_start(rest);
    let dir = rest.take(start);
    let name = rest.skip(start);
    lemma_component_start_bounds(rest);
    lemma_last_dot_bounds(name);
    lemma_last_dot_is_dot(name);
    lemma_after_last_dot(name);
    let stem = name.take(last_dot(name));
    let part = rest.subrange(start + last_dot(name) + 1, n);
    let cut = rest.take(n);
    assert(cut =~= dir + stem + seq![DOT] + part);
    assert forall|k: int| 0 <= k < part.len() implies part[k] != DOT && part[k] != SEPARATOR by {
        assert(part[k] == name[last_dot(name) + 1 + k]);
        assert(part[k] == rest[start + last_dot(name) + 1 + k]);
    }
    assert forall|k: int| 0 <= k < stem.len() implies stem[k] != SEPARATOR by {
        assert(stem[k] == rest[start + k]);
    }
    assert(dir.len() == 0 || dir.last() == SEPARATOR);
    if part.len() == 0 && stem == seq![DOT] {
        let dots = seq![DOT, DOT];
        assert(cut =~= dir + dots);
        assert(dots.len() == 2 && dots[0] == DOT && dots[1] == DOT);
        lemma_component_start_append(dir, dots);
        assert(cut.skip(start) =~= dots);
        assert(cut[cut.len() - 2] == DOT);
        assert(trimmed(cut) == cut);
        assert(false);
    }
    lemma_named(dir, stem, part);
}

proof fn lemma_last_dot_is_dot(name: Seq<u8>)
    ensures
        0 <= last_dot(name) ==> last_dot(name) < name.len() && name[last_dot(name)] == DOT,
    decreases name.len(),
{
    if name.len() > 0 && name.last() != DOT {
        lemma_last_dot_is_dot(name.drop_last());
    }
}

/// A path that is given an extension has that extension, and its file keeps its
/// stem, where there is a file name to extend. An extension that holds a dot is not
/// read back as a whole.
pub proof fn law_extension_given(path: Seq<u8>, ext: Seq<u8>)
    requires
        file_name(bare(path)) is Some,
        ext.len() > 0,
        !ext.contains(SEPARATOR),
        !ext.contains(DOT),
    ensures
        extension(with_extension(path, ext)) == Some(ext),
        file_stem(with_extension(path, ext)) == file_stem(path),
{
    let rest = trimmed(bare(path));
    let start = component_start(rest);
    let dir = rest.take(start);
    let name = rest.skip(start);
    let stem = stem_of(name);
    lemma_component_start_bounds(rest);
    lemma_last_dot_bounds(name);
    assert forall|k: int| 0 <= k < stem.len() implies stem[k] != SEPARATOR by {
        assert(stem[k] == rest[start + k]);
    }
    assert(with_extension(path, ext) =~= dir + stem + seq![DOT] + ext);
    if start > 0 {
        assert(dir.last() == SEPARATOR);
    }
    lemma_named(dir, stem, ext);
    if file_name(path) is Some {
        lemma_bare_stem(path);
    }
}

/// A name without a dot but for a leading one, put behind a directory, is its own stem
/// and has no extension.
pub(crate) proof fn lemma_plain(dir: Seq<u8>, name: Seq<u8>)
    requires
        dir.len() == 0 || dir.last() == SEPARATOR,
        name.len() > 0,
        !name.contains(SEPARATOR),
        forall|k: int| 0 < k < name.len() ==> #[trigger] name[k] != DOT,
        name != seq![DOT],
    ensures
        file_stem(dir + name) == Some(name),
        extension(dir + name) is None,
        trimmed(dir + name) == dir + name,
        component_start(dir + name) == dir.len(),
{
    let path = dir + name;
    assert(path.last() == name[name.len() - 1]);
    assert(trimmed(path) == path) by {
        if path.last() == DOT {
            assert(name.len() == 1);
            assert(name =~= seq![DOT]);
        }
    }
    lemma_component_start_append(dir, name);
    assert(component_start(dir) == dir.len());
    assert(path.skip(dir.len() as int) =~= name);
    assert(name != seq![DOT, DOT]) by {
        let dots = seq![DOT, DOT];
        assert(dots[1] == DOT && dots.len() == 2);
    }
    lemma_last_dot_bounds(name);
    lemma_last_dot_is_dot(name);
}

/// A stem is not empty and holds no separator.
pub(crate) proof fn lemma_stem_whole(path: Seq<u8>)
    ensures
        file_stem(path) matches Some(stem) ==> stem.len() > 0 && !stem.contains(SEPARATOR),
{
    if let Some(stem) = file_stem(path) {
        let rest = trimmed(path);
        let start = component_start(rest);
        let name = rest.skip(start);
        lemma_component_start_bounds(rest);
        lemma_last_dot_bounds(name);
        assert forall|k: int| 0 <= k < stem.len() implies stem[k] != SEPARATOR by {
            assert(stem[k] == rest[start + k]);
        }
    }
}

/// A path that ends in `..` names no file.
pub(crate) proof fn lemma_parent(dir: Seq<u8>)
    requires
        dir.len() == 0 || dir.last() == SEPARATOR,
    ensures
        file_name(dir + seq![DOT, DOT]) is None,
{
    let dots = seq![DOT, DOT];
    let path = dir + dots;
    assert(dots.len() == 2 && dots[0] == DOT && dots[1] == DOT);
    assert(path[path.len() - 2] == DOT);
    assert(trimmed(path) == path);
    lemma_component_start_append(dir, dots);
    assert(component_start(dir) == dir.len());
    assert(path.skip(dir.len() as int) =~= dots);
}

/// The path `.` names no file.
pub(crate) proof fn lemma_dot()
    ensures
        file_name(seq![DOT]) is None,
{
    let dot = seq![DOT];
    assert(dot.len() == 1 && dot[0] == DOT);
    assert(trimmed(dot) == dot);
    assert(dot.drop_last().len() == 0);
    assert(component_start(dot.drop_last()) == 0);
    assert(component_start(dot) == 0);
    assert(dot.skip(0) =~= dot);
}

impl FilePath {
    /// A path spells the string that it was made from, byte for byte, and is displayed as
    /// that string.
    pub proof fn law_spelled(text: &str, path: FilePath, display: String)
        requires
            call_ensures(FilePath::from_str, (text,), path),
            call_ensures(FilePath::display, (&path,), display),
        ensures
            path.bytes@ == encode_utf8(text@),
            display@ == text@,
    {
        law_text_shown(text@);
    }

    /// A file name that is a stem, a dot, and what holds no further dot has that stem and
    /// that extension, whole, whatever directory it is in.
    pub proof fn law_stem_and_extension(
        path: &FilePath,
        dir: Seq<u8>,
        stem: Seq<u8>,
        ext: Seq<u8>,
        got_stem: Option<&[u8]>,
        got_ext: Option<&[u8]>,
    )
        requires
            path.bytes@ == dir + stem + seq![0x2eu8] + ext,
            dir.len() == 0 || dir.last() == 0x2f,
            stem.len() > 0,
            !stem.contains(0x2f),
            !ext.contains(0x2f),
            !ext.contains(0x2e),
            ext.len() > 0 || stem != seq![0x2eu8],
            call_ensures(FilePath::file_stem, (path,), got_stem),
            call_ensures(FilePath::extension, (path,), got_ext),
        ensures
            got_stem is Some,
            got_stem->0@ == stem,
            got_ext is Some,
            got_ext->0@ == ext,
    {
        lemma_named(dir, stem, ext);
    }

    /// A file name without a dot, or with only a leading one, is all stem and has no
    /// extension, whatever directory it is in.
    pub proof fn law_plain_name(
        path: &FilePath,
        dir: Seq<u8>,
        name: Seq<u8>,
        got_stem: Option<&[u8]>,
        got_ext: Option<&[u8]>,
    )
        requires
            path.bytes@ == dir + name,
            dir.len() == 0 || dir.last() == 0x2f,
            name.len() > 0,
            !name.contains(0x2f),
            forall|k: int| 0 < k < name.len() ==> #[trigger] name[k] != 0x2e,
            name != seq![0x2eu8],
            call_ensures(FilePath::file_stem, (path,), got_stem),
            call_ensures(FilePath::extension, (path,), got_ext),
        ensures
            got_stem is Some,
            got_stem->0@ == name,
            got_ext is None,
    {
        lemma_plain(dir, name);
    }

    /// The empty path, `.`, and a path that ends in the component `..` have neither stem
    /// nor extension, and stay as they are when an extension is to be given.
    pub proof fn law_no_name(
        path: &FilePath,
        dir: Seq<u8>,
        ext: &str,
        got_stem: Option<&[u8]>,
        got_ext: Option<&[u8]>,
        changed: FilePath,
    )
        requires
            dir.len() == 0 || dir.last() == 0x2f,
            path.bytes@.len() == 0 || path.bytes@ == seq![0x2eu8] || path.bytes@ == dir + seq![
                0x2eu8,
                0x2e,
            ],
            call_ensures(FilePath::file_stem, (path,), got_stem),
            call_ensures(FilePath::extension, (path,), got_ext),
            call_ensures(FilePath::with_extension, (path, ext), changed),
        ensures
            got_stem is None,
            got_ext is None,
            changed.bytes@ == path.bytes@,
    {
        let bytes = path.bytes@;
        if bytes.len() == 0 {
            assert(trimmed(bytes) == bytes);
            assert(component_start(bytes) == 0);
        } else if bytes == seq![0x2eu8] {
            lemma_dot();
        } else {
            lemma_parent(dir);
        }
        assert(file_name(bytes) is None);
    }

    /// A separator at the end of a path, and a component `.` at its end, make no difference
    /// to the stem and the extension of its file.
    pub proof fn law_trailing(
        path: &FilePath,
        longer: &FilePath,
        stem: Option<&[u8]>,
        ext: Option<&[u8]>,
        longer_stem: Option<&[u8]>,
        longer_ext: Option<&[u8]>,
    )
        requires
            longer.bytes@ == path.bytes@ + seq![0x2fu8] || longer.bytes@ == path.bytes@ + seq![
                0x2fu8,
                0x2e,
            ],
            call_ensures(FilePath::file_stem, (path,), stem),
            call_ensures(FilePath::extension, (path,), ext),
            call_ensures(FilePath::file_stem, (longer,), longer_stem),
            call_ensures(FilePath::extension, (longer,), longer_ext),
        ensures
            stem is Some <==> longer_stem is Some,
            stem is Some ==> stem->0@ == longer_stem->0@,
            ext is Some <==> longer_ext is Some,
            ext is Some ==> ext->0@ == longer_ext->0@,
    {
        let bytes = path.bytes@;
        let one = bytes + seq![0x2fu8];
        assert(one.last() == SEPARATOR);
        assert(one.drop_last() =~= bytes);
        assert(trimmed(one) == trimmed(bytes));
        if longer.bytes@ != one {
            let two = longer.bytes@;
            assert(two[two.len() - 1] == DOT && two[two.len() - 2] == SEPARATOR);
            assert(two.drop_last() =~= one);
            assert(trimmed(two) == trimmed(one));
        }
    }

    /// The last extension of a file name is exchanged for the one given, with the dot kept
    /// or, for the empty extension, cut off. What stands before that dot stays byte for
    /// byte. From a name that begins with two dots and has no other, only the old
    /// extension is cut off.
    pub proof fn law_extension_changed(
        path: &FilePath,
        dir: Seq<u8>,
        stem: Seq<u8>,
        old_ext: Seq<u8>,
        ext: &str,
        changed: FilePath,
    )
        requires
            path.bytes@ == dir + stem + seq![0x2eu8] + old_ext,
            dir.len() == 0 || dir.last() == 0x2f,
            stem.len() > 0,
            !stem.contains(0x2f),
            !old_ext.contains(0x2f),
            !old_ext.contains(0x2e),
            old_ext.len() > 0 || stem != seq![0x2eu8],
            call_ensures(FilePath::with_extension, (path, ext), changed),
        ensures
            changed.bytes@ == (if stem == seq![0x2eu8] {
                dir + seq![0x2eu8, 0x2e]
            } else if encode_utf8(ext@).len() == 0 {
                dir + stem
            } else {
                dir + stem + seq![0x2eu8] + encode_utf8(ext@)
            }),
    {
        let bytes = path.bytes@;
        lemma_named(dir, stem, old_ext);
        let base = dir + stem + seq![DOT] + Seq::<u8>::empty();
        assert(bare(bytes) =~= base);
        if stem == seq![0x2eu8] {
            assert(stem.len() == 1 && stem[0] == DOT);
            assert(base =~= dir + seq![DOT, DOT]);
            lemma_parent(dir);
        } else {
            lemma_named(dir, stem, Seq::<u8>::empty());
            assert(base.take(dir.len() as int) =~= dir);
            if encode_utf8(ext@).len() == 0 {
                assert(changed.bytes@ =~= dir + stem);
            } else {
                assert(changed.bytes@ =~= dir + stem + seq![0x2eu8] + encode_utf8(ext@));
            }
        }
    }

    /// A file name without an extension gets a dot and the extension given put behind it,
    /// and nothing for the empty extension.
    pub proof fn law_extension_added(
        path: &FilePath,
        dir: Seq<u8>,
        name: Seq<u8>,
        ext: &str,
        changed: FilePath,
    )
        requires
            path.bytes@ == dir + name,
            dir.len() == 0 || dir.last() == 0x2f,
            name.len() > 0,
            !name.contains(0x2f),
            forall|k: int| 0 < k < name.len() ==> #[trigger] name[k] != 0x2e,
            name != seq![0x2eu8],
            call_ensures(FilePath::with_extension, (path, ext), changed),
        ensures
            changed.bytes@ == (if encode_utf8(ext@).len() == 0 {
                path.bytes@
            } else {
                path.bytes@ + seq![0x2eu8] + encode_utf8(ext@)
            }),
    {
        lemma_plain(dir, name);
        assert((dir + name).take(dir.len() as int) =~= dir);
        if encode_utf8(ext@).len() == 0 {
            assert(changed.bytes@ =~= path.bytes@);
        } else {
            assert(changed.bytes@ =~= path.bytes@ + seq![0x2eu8] + encode_utf8(ext@));
        }
    }

    /// A separator at the end of a path makes no difference to what becomes of it with
    /// another extension, where its file name has no extension so far; it is not kept.
    pub proof fn law_extension_added_trailing(
        path: &FilePath,
        longer: &FilePath,
        ext: &str,
        old_ext: Option<&[u8]>,
        stem: Option<&[u8]>,
        changed: FilePath,
        longer_changed: FilePath,
    )
        requires
            longer.bytes@ == path.bytes@ + seq![0x2fu8],
            call_ensures(FilePath::extension, (path,), old_ext),
            call_ensures(FilePath::file_stem, (path,), stem),
            old_ext is None,
            stem is Some,
            call_ensures(FilePath::with_extension, (path, ext), changed),
            call_ensures(FilePath::with_extension, (longer, ext), longer_changed),
        ensures
            longer_changed.bytes@ == changed.bytes@,
    {
        assert(longer.bytes@.last() == SEPARATOR);
        assert(longer.bytes@.drop_last() =~= path.bytes@);
        assert(trimmed(longer.bytes@) == trimmed(path.bytes@));
    }

    /// The extension of a file name with a separator behind it is exchanged like that of
    /// one without; the separator is not kept.
    pub proof fn law_extension_changed_trailing(
        path: &FilePath,
        dir: Seq<u8>,
        stem: Seq<u8>,
        old_ext: Seq<u8>,
        ext: &str,
        changed: FilePath,
    )
        requires
            path.bytes@ == dir + stem + seq![0x2eu8] + old_ext + seq![0x2fu8],
            dir.len() == 0 || dir.last() == 0x2f,
            stem.len() > 0,
            !stem.contains(0x2f),
            !old_ext.contains(0x2f),
            !old_ext.contains(0x2e),
            old_ext.len() > 0,
            call_ensures(FilePath::with_extension, (path, ext), changed),
        ensures
            changed.bytes@ == (if encode_utf8(ext@).len() == 0 {
                dir + stem
            } else {
                dir + stem + seq![0x2eu8] + encode_utf8(ext@)
            }),
    {
        let bytes = path.bytes@;
        let shorter = dir + stem + seq![0x2eu8] + old_ext;
        lemma_named(dir, stem, old_ext);
        assert(bytes.last() == SEPARATOR);
        assert(bytes.drop_last() =~= shorter);
        assert(trimmed(bytes) == trimmed(shorter));
        let part = old_ext.take(1);
        assert(part[0] == old_ext[0]);
        let base = dir + stem + seq![DOT] + part;
        assert(bare(bytes) =~= base);
        lemma_named(dir, stem, part);
        assert(base.take(dir.len() as int) =~= dir);
        if encode_utf8(ext@).len() == 0 {
            assert(changed.bytes@ =~= dir + stem);
        } else {
            assert(changed.bytes@ =~= dir + stem + seq![0x2eu8] + encode_utf8(ext@));
        }
    }

    /// Joining puts the name behind the directory, both byte for byte, with a separator
    /// between them where the directory is not empty and does not end in one. A name that
    /// begins with a separator stands for itself.
    pub proof fn law_joined(dir: &FilePath, name: &str, path: FilePath)
        requires
            call_ensures(FilePath::join, (dir, name), path),
        ensures
            ({
                let n = encode_utf8(name@).len() as int;
                let d = dir.bytes@.len() as int;
                if n > 0 && encode_utf8(name@)[0] == 0x2f {
                    path.bytes@ == encode_utf8(name@)
                } else {
                    let gap: int = if d > 0 && dir.bytes@[d - 1] != 0x2f {
                        1
                    } else {
                        0
                    };
                    &&& path.bytes@.len() == d + gap + n
                    &&& path.bytes@.take(d) == dir.bytes@
                    &&& gap == 1 ==> path.bytes@[d] == 0x2f
                    &&& path.bytes@.skip(d + gap) == encode_utf8(name@)
                }
            }),
    {
        let n = encode_utf8(name@).len() as int;
        let d = dir.bytes@.len() as int;
        if !(n > 0 && encode_utf8(name@)[0] == 0x2f) {
            assert(path.bytes@.take(d) =~= dir.bytes@);
            if d > 0 && dir.bytes@[d - 1] != 0x2f {
                assert(path.bytes@.skip(d + 1) =~= encode_utf8(name@));
            } else {
                assert(path.bytes@.skip(d) =~= encode_utf8(name@));
            }
        }
    }
}

} // verus!
