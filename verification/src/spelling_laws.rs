//! Folders, extensions and components of paths, told by how the paths are spelled.

use vstd::prelude::*;

use crate::path::{PathView, Platform};

verus! {

/// Whether `b` ends a name within a path: `/`, and on Windows `\`.
pub open spec fn ends_name(platform: Platform, b: u8) -> bool {
    b == 0x2f || (platform is Windows && b == 0x5c)
}

/// Whether `s` begins with nothing that only Windows knows but a drive: it names no server and no
/// device, and is not to be taken as it is.
pub open spec fn is_simple(platform: Platform, s: Seq<u8>) -> bool {
    platform is Windows ==> !(s.len() >= 2 && ends_name(platform, s[0]) && ends_name(
        platform,
        s[1],
    ))
}

/// How many bytes of a simple path name a drive.
pub open spec fn drive_len(platform: Platform, s: Seq<u8>) -> int {
    if platform is Windows && s.len() >= 2 && (0x41 <= s[0] <= 0x5a || 0x61 <= s[0] <= 0x7a) && s[1]
        == 0x3a {
        2
    } else {
        0
    }
}

/// Whether `name` can be the name of a file or a folder within a path: it is not empty, not `.`, and
/// holds nothing that ends a name.
pub open spec fn is_name(platform: Platform, name: Seq<u8>) -> bool {
    &&& name.len() > 0
    &&& name != seq![0x2eu8]
    &&& forall|i: int| 0 <= i < name.len() ==> !ends_name(platform, #[trigger] name[i])
}

/// Whether `s` ends with a name: neither with what ends one, nor with a `.` behind that.
pub open spec fn ends_with_name(platform: Platform, s: Seq<u8>) -> bool {
    &&& s.len() > 0
    &&& !ends_name(platform, s.last())
    &&& !(s.len() >= 2 && s.last() == 0x2e && ends_name(platform, s[s.len() - 2]))
}

/// What a simple path begins with.
pub proof fn law_prefixes(platform: Platform, s: Seq<u8>)
    requires
        is_simple(platform, s),
    ensures
        platform.prefix_len(s) == drive_len(platform, s),
        !platform.is_verbatim(s),
        platform.is_rooted(s) <==> drive_len(platform, s) < s.len() && ends_name(
            platform,
            s[drive_len(platform, s)],
        ),
        platform.is_dotted(s) <==> ({
            let n = drive_len(platform, s);
            n < s.len() && s[n] == 0x2e && (n + 1 == s.len() || ends_name(platform, s[n + 1]))
        }),
{
    reveal(Platform::prefix_len);
}

/// Joining a path that does not begin anew writes it behind the folder, and a separator between them
/// unless the folder is empty, ends with one or is a drive alone.
pub proof fn law_joined(platform: Platform, s: Seq<u8>, part: Seq<u8>)
    requires
        is_simple(platform, s),
    ensures
        platform.join_bytes(s, part) == if s.len() == 0 || ends_name(platform, s.last()) || (s.len()
            == 2 && drive_len(platform, s) == 2) {
            s + part
        } else if platform is Windows {
            s + seq![0x5cu8] + part
        } else {
            s + seq![0x2fu8] + part
        },
{
    law_prefixes(platform, s);
    assert(s.push(platform.main_separator()) =~= s + seq![platform.main_separator()]);
}

/// Where the last name of a path starts that ends with a name.
proof fn lemma_last_name(platform: Platform, front: Seq<u8>, name: Seq<u8>)
    requires
        is_name(platform, name),
        is_simple(platform, front + name),
        front.len() == drive_len(platform, front + name) || (front.len() > 0 && ends_name(
            platform,
            front.last(),
        )),
        drive_len(platform, front + name) <= front.len(),
    ensures
        ({
            let s = front + name;
            let start = platform.body_start(s);
            &&& 0 <= start <= front.len()
            &&& platform.last_start(false, s, start) == front.len()
            &&& platform.body(s) == s
            &&& s.skip(front.len() as int) == name
        }),
{
    let s = front + name;
    let n = front.len() as int;
    let start = platform.body_start(s);
    law_prefixes(platform, s);
    let drive = drive_len(platform, s);
    assert(s[n] == name[0]);
    if platform.is_rooted(s) {
        if drive == n {
            assert(!ends_name(platform, name[0]));
        }
    }
    if platform.is_dotted(s) {
        if drive == n {
            assert(name[0] == 0x2e);
            if name.len() > 1 {
                assert(s[n + 1] == name[1]);
                assert(!ends_name(platform, name[1]));
            } else {
                assert(name =~= seq![0x2eu8]);
            }
        }
    }
    assert(start <= n);
    crate::path_laws::lemma_last_component(platform, false, s, start);
    let last = platform.last_start(false, s, start);
    assert forall|k: int| n <= k < s.len() implies !ends_name(platform, #[trigger] s[k]) by {
        assert(s[k] == name[k - n]);
    }
    if last > n {
        assert(platform.divides(false, s[last - 1]));
    }
    if last < n {
        assert(s[n - 1] == front.last());
        assert(!platform.divides(false, s[n - 1]));
    }
    assert(s.skip(n) =~= name);
    assert(name != crate::path::current_dir());
    assert(platform.trimmed(false, s, start) == s);
}

/// Where the last dot of a name is.
proof fn lemma_last_dot(stem: Seq<u8>, ext: Seq<u8>)
    requires
        forall|i: int| 0 <= i < ext.len() ==> #[trigger] ext[i] != 0x2e,
    ensures
        crate::path::last_dot(stem + seq![0x2eu8] + ext) == stem.len(),
    decreases ext.len(),
{
    let name = stem + seq![0x2eu8] + ext;
    if ext.len() == 0 {
        assert(name.last() == 0x2e);
    } else {
        let less = ext.drop_last();
        assert(name.last() == ext[ext.len() - 1]);
        assert(name.drop_last() =~= stem + seq![0x2eu8] + less);
        assert forall|i: int| 0 <= i < less.len() implies #[trigger] less[i] != 0x2e by {
            assert(less[i] == ext[i]);
        }
        lemma_last_dot(stem, less);
    }
}

/// A name has no dot behind its first byte where there is none.
proof fn lemma_no_dot(name: Seq<u8>)
    requires
        forall|i: int| 1 <= i < name.len() ==> #[trigger] name[i] != 0x2e,
    ensures
        crate::path::last_dot(name) <= 0,
    decreases name.len(),
{
    if name.len() > 1 {
        let less = name.drop_last();
        assert(name.last() == name[name.len() - 1]);
        assert forall|i: int| 1 <= i < less.len() implies #[trigger] less[i] != 0x2e by {
            assert(less[i] == name[i]);
        }
        lemma_no_dot(less);
    } else if name.len() == 1 {
        assert(crate::path::last_dot(name.drop_last()) == -1);
    }
}

/// Where the name that a path ends with starts.
proof fn lemma_split_off_name(platform: Platform, s: Seq<u8>, start: int) -> (n: int)
    requires
        0 <= start < s.len(),
        !ends_name(platform, s.last()),
    ensures
        start <= n < s.len(),
        n == start || ends_name(platform, s[n - 1]),
        forall|k: int| n <= k < s.len() ==> !ends_name(platform, #[trigger] s[k]),
    decreases s.len(),
{
    if s.len() - 1 == start || ends_name(platform, s[s.len() - 2]) {
        s.len() - 1
    } else {
        let front = s.drop_last();
        let n = lemma_split_off_name(platform, front, start);
        assert forall|k: int| n <= k < s.len() implies !ends_name(platform, #[trigger] s[k]) by {
            if k < front.len() {
                assert(s[k] == front[k]);
            }
        }
        if n > start {
            assert(s[n - 1] == front[n - 1]);
        }
        n
    }
}

/// A path that ends with a dot and an extension, with something of a name before the dot, has that
/// extension, and without it is what comes before the dot.
pub proof fn law_extension(platform: Platform, stem: Seq<u8>, ext: Seq<u8>)
    requires
        is_simple(platform, stem),
        stem.len() > drive_len(platform, stem),
        !ends_name(platform, stem.last()),
        ext.len() > 0,
        forall|i: int|
            0 <= i < ext.len() ==> #[trigger] ext[i] != 0x2e && !ends_name(platform, ext[i]),
    ensures
        platform.extension(stem + seq![0x2eu8] + ext) == Some(ext),
        platform.without_extension(stem + seq![0x2eu8] + ext) == stem,
{
    let s = stem + seq![0x2eu8] + ext;
    let drive = drive_len(platform, stem);
    assert(s[0] == stem[0]);
    if stem.len() >= 2 {
        assert(s[1] == stem[1]);
    }
    assert(drive_len(platform, s) == drive);
    let n = lemma_split_off_name(platform, stem, drive);
    let front = s.take(n);
    let name = s.skip(n);
    assert(front + name =~= s);
    let part = stem.skip(n);
    assert(name =~= part + seq![0x2eu8] + ext);
    assert forall|i: int| 0 <= i < name.len() implies !ends_name(platform, #[trigger] name[i]) by {
        if i < part.len() {
            assert(name[i] == stem[n + i]);
        } else if i > part.len() {
            assert(name[i] == ext[i - part.len() - 1]);
        }
    }
    if n > drive {
        assert(front.last() == stem[n - 1]);
    }
    assert(name.len() >= 3);
    lemma_last_name(platform, front, name);
    law_prefixes(platform, s);
    assert(name.last() == ext[ext.len() - 1]);
    assert(name != crate::path::current_dir());
    assert(name != crate::path::parent_dir()) by {
        assert(name.last() != 0x2e);
        assert(crate::path::parent_dir()[1] == 0x2e);
    }
    assert(platform.base_name(s) == Some(name));
    lemma_last_dot(part, ext);
    assert(name.skip((part.len() + 1) as int) =~= ext);
    assert(s.take(s.len() - name.len() + part.len()) =~= stem);
}

/// A path that ends with a name that has no dot in it, or none but the one that it starts with, has no
/// extension, and is as it is without one.
pub proof fn law_no_extension(platform: Platform, front: Seq<u8>, name: Seq<u8>)
    requires
        is_name(platform, name),
        forall|i: int| 1 <= i < name.len() ==> #[trigger] name[i] != 0x2e,
        is_simple(platform, front + name),
        drive_len(platform, front + name) <= front.len(),
        front.len() == drive_len(platform, front + name) || ends_name(platform, front.last()),
    ensures
        platform.extension(front + name) is None,
        platform.without_extension(front + name) == front + name,
{
    let s = front + name;
    lemma_last_name(platform, front, name);
    law_prefixes(platform, s);
    lemma_no_dot(name);
    assert(name != crate::path::parent_dir()) by {
        assert(crate::path::parent_dir()[1] == 0x2e);
    }
    assert(platform.base_name(s) == Some(name));
    assert(s.take(s.len() as int) =~= s);
}

/// A path that ends with a dot right behind something of a name has an empty extension.
pub proof fn law_empty_extension(platform: Platform, stem: Seq<u8>)
    requires
        is_simple(platform, stem),
        stem.len() > drive_len(platform, stem),
        !ends_name(platform, stem.last()),
        stem.last() != 0x2e,
    ensures
        platform.extension(stem + seq![0x2eu8]) == Some(Seq::<u8>::empty()),
        platform.without_extension(stem + seq![0x2eu8]) == stem,
{
    let s = stem + seq![0x2eu8];
    let none = Seq::<u8>::empty();
    let drive = drive_len(platform, stem);
    assert(s[0] == stem[0]);
    if stem.len() >= 2 {
        assert(s[1] == stem[1]);
    }
    let n = lemma_split_off_name(platform, stem, drive);
    let front = s.take(n);
    let name = s.skip(n);
    let part = stem.skip(n);
    assert(front + name =~= s);
    assert(name =~= part + seq![0x2eu8] + none);
    assert forall|i: int| 0 <= i < name.len() implies !ends_name(platform, #[trigger] name[i]) by {
        if i < part.len() {
            assert(name[i] == stem[n + i]);
        }
    }
    if n > drive {
        assert(front.last() == stem[n - 1]);
    }
    assert(part.last() == stem.last());
    lemma_last_name(platform, front, name);
    law_prefixes(platform, s);
    assert(name != crate::path::parent_dir()) by {
        assert(name[name.len() - 2] == stem.last());
        assert(crate::path::parent_dir()[0] == 0x2e);
    }
    assert(platform.base_name(s) == Some(name));
    lemma_last_dot(part, none);
    assert(name.skip((part.len() + 1) as int) =~= none);
    assert(s.take(s.len() - name.len() + part.len()) =~= stem);
}

/// The extension of a path that ends with a name is what follows a dot at its end.
pub proof fn law_extension_is_at_the_end(platform: Platform, s: Seq<u8>)
    requires
        is_simple(platform, s),
        s.len() > 0,
        !ends_name(platform, s.last()),
        s.last() != 0x2e,
    ensures
        platform.extension(s) matches Some(ext) ==> {
            let n = s.len() - ext.len();
            &&& n >= 1
            &&& s.skip(n) == ext
            &&& s[n - 1] == 0x2e
        },
{
    law_prefixes(platform, s);
    let start = platform.body_start(s);
    if start < s.len() {
        crate::path_laws::lemma_last_component(platform, false, s, start);
        let last = platform.last_start(false, s, start);
        let name = s.skip(last);
        if last == s.len() {
            assert(platform.divides(false, s[last - 1]));
        }
        assert(name.last() == s.last());
        assert(name != crate::path::current_dir());
        assert(platform.body(s) == s);
        if let Some(ext) = platform.extension(s) {
            lemma_dot_there(name);
            let k = crate::path::stem_len(name);
            assert(s.skip(s.len() - ext.len()) =~= ext);
            assert(s[s.len() - ext.len() - 1] == name[k]);
        }
    } else {
        assert(platform.body(s) == s);
    }
}

/// There is a dot where the last one is.
proof fn lemma_dot_there(name: Seq<u8>)
    ensures
        -1 <= crate::path::last_dot(name) < name.len(),
        crate::path::last_dot(name) >= 0 ==> name[crate::path::last_dot(name)] == 0x2e,
    decreases name.len(),
{
    if name.len() > 0 && name.last() != 0x2e {
        lemma_dot_there(name.drop_last());
    }
}

/// A folder and a path in it begin alike.
proof fn lemma_begins_alike(platform: Platform, d: Seq<u8>, sep: u8, rest: Seq<u8>)
    requires
        ends_name(platform, sep),
        is_simple(platform, d.push(sep) + rest),
        d.len() > drive_len(platform, d),
    ensures
        ({
            let s = d.push(sep) + rest;
            &&& is_simple(platform, d)
            &&& drive_len(platform, s) == drive_len(platform, d)
            &&& platform.prefix_len(s) == platform.prefix_len(d)
            &&& platform.is_rooted(s) == platform.is_rooted(d)
            &&& platform.is_dotted(s) == platform.is_dotted(d)
            &&& platform.body_start(s) == platform.body_start(d)
            &&& 0 <= platform.body_start(s) <= d.len()
            &&& s.take(platform.prefix_len(s)) == d.take(platform.prefix_len(d))
            &&& !platform.is_verbatim(s)
            &&& !platform.is_verbatim(d)
        }),
{
    let s = d.push(sep) + rest;
    let n = drive_len(platform, d);
    assert(s[0] == d[0]);
    assert(s[d.len() as int] == sep);
    if d.len() >= 2 {
        assert(s[1] == d[1]);
    }
    law_prefixes(platform, s);
    law_prefixes(platform, d);
    assert(s[n] == d[n]);
    if n + 1 < d.len() {
        assert(s[n + 1] == d[n + 1]);
    }
    assert(s.take(n) =~= d.take(n));
}

/// The folder of a path that ends with a name is what comes before the name and the separator.
pub proof fn law_parent(platform: Platform, d: Seq<u8>, sep: u8, name: Seq<u8>)
    requires
        ends_name(platform, sep),
        is_name(platform, name),
        is_simple(platform, d.push(sep) + name),
        d.len() > drive_len(platform, d),
        ends_with_name(platform, d),
    ensures
        platform.parent(d.push(sep) + name) == Some(d),
{
    let front = d.push(sep);
    let s = front + name;
    lemma_begins_alike(platform, d, sep, name);
    lemma_last_name(platform, front, name);
    law_prefixes(platform, s);
    let start = platform.body_start(s);
    assert(platform.without_last(false, s, start) =~= d);
    if start < d.len() {
        crate::path_laws::lemma_last_component(platform, false, d, start);
        let last = platform.last_start(false, d, start);
        if last == d.len() {
            assert(platform.divides(false, d[last - 1]));
        }
        if d.skip(last) == crate::path::current_dir() {
            assert(d.skip(last).len() == 1 && d.skip(last)[0] == 0x2e);
            assert(d[last] == 0x2e);
            let n = drive_len(platform, s);
            assert(s[n] == d[n]);
            assert(s[last] == d[last]);
            assert(s[last + 1] == sep);
            if last > start {
                assert(platform.divides(false, d[last - 1]));
            }
        }
        assert(platform.trimmed(false, d, start) == d);
    }
}

/// A name alone, or right behind a drive or a root, lies there.
pub proof fn law_parent_at_start(platform: Platform, front: Seq<u8>, name: Seq<u8>)
    requires
        is_name(platform, name),
        is_simple(platform, front + name),
        ({
            let n = drive_len(platform, front + name);
            front.len() == n || (front.len() == n + 1 && ends_name(platform, front.last()))
        }),
    ensures
        platform.parent(front + name) == Some(front),
{
    let s = front + name;
    lemma_last_name(platform, front, name);
    law_prefixes(platform, s);
    let start = platform.body_start(s);
    let n = drive_len(platform, s);
    if front.len() == n + 1 {
        assert(s[n] == front.last());
        assert(start == n + 1);
    }
    assert(platform.without_last(false, s, start) =~= front);
}

/// A name behind a folder is one more component, however the folder is spelled.
pub proof fn law_key_of_name(platform: Platform, d: Seq<u8>, sep: u8, name: Seq<u8>)
    requires
        ends_name(platform, sep),
        is_name(platform, name),
        is_simple(platform, d.push(sep) + name),
        d.len() > drive_len(platform, d),
    ensures
        ({
            let key = platform.path_key(d.push(sep) + name);
            let folder = platform.path_key(d);
            &&& key.prefix == folder.prefix
            &&& key.rooted == folder.rooted
            &&& key.dotted == folder.dotted
            &&& key.components == folder.components.push(name)
        }),
{
    let front = d.push(sep);
    let s = front + name;
    lemma_begins_alike(platform, d, sep, name);
    lemma_last_name(platform, front, name);
    law_prefixes(platform, s);
    let start = platform.body_start(s);
    assert(platform.without_last(false, s, start) =~= d);
}

/// What a path consists of that has no more than one name.
pub proof fn law_key_at_start(platform: Platform, front: Seq<u8>, name: Seq<u8>)
    requires
        is_name(platform, name) || name.len() == 0,
        is_simple(platform, front + name),
        ({
            let n = drive_len(platform, front + name);
            front.len() == n || (front.len() == n + 1 && ends_name(platform, front.last()))
        }),
    ensures
        ({
            let n = drive_len(platform, front + name);
            let key = platform.path_key(front + name);
            &&& key.prefix == front.take(n)
            &&& key.rooted <==> front.len() == n + 1
            &&& !key.dotted
            &&& key.components == if name.len() == 0 {
                Seq::empty()
            } else {
                seq![name]
            }
        }),
{
    let s = front + name;
    let n = drive_len(platform, s);
    law_prefixes(platform, s);
    assert(s.take(n) =~= front.take(n));
    if front.len() == n + 1 {
        assert(s[n] == front.last());
    } else if name.len() > 0 {
        assert(s[n] == name[0]);
        assert(!ends_name(platform, name[0]));
        if name.len() > 1 {
            assert(s[n + 1] == name[1]);
            assert(!ends_name(platform, name[1]));
        } else if name[0] == 0x2e {
            assert(name =~= seq![0x2eu8]);
        }
    }
    let start = platform.body_start(s);
    assert(start == front.len());
    if name.len() > 0 {
        lemma_last_name(platform, front, name);
        let rest = platform.without_last(false, s, start);
        assert(rest =~= front);
        assert(platform.trimmed(false, rest, start) == rest);
        assert(platform.components(false, rest, start) =~= Seq::empty());
        assert(platform.components(false, s, start) =~= seq![name]);
    } else {
        assert(s =~= front);
        assert(platform.trimmed(false, s, start) == s);
    }
}

/// Separators at the end of a path, and a `.` behind one, make it no other path.
pub proof fn law_key_ignores_endings(platform: Platform, d: Seq<u8>, sep: u8)
    requires
        ends_name(platform, sep),
        is_simple(platform, d.push(sep)),
        d.len() > drive_len(platform, d),
    ensures
        platform.path_key(d.push(sep)) == platform.path_key(d),
        platform.path_key(d.push(sep).push(0x2e)) == platform.path_key(d),
{
    let one = d.push(sep);
    let two = one.push(0x2e);
    let none = Seq::<u8>::empty();
    let dot = seq![0x2eu8];
    assert(one + none =~= one);
    assert(one + dot =~= two);
    assert(two[0] == one[0]);
    assert(two[1] == one[1]);
    lemma_begins_alike(platform, d, sep, none);
    lemma_begins_alike(platform, d, sep, dot);
    lemma_trims_alike(platform, d, sep);
}

/// The end of a component does not come before the path starts.
proof fn lemma_component_end(platform: Platform, verbatim: bool, s: Seq<u8>, from: int)
    requires
        0 <= from,
    ensures
        0 <= platform.component_end(verbatim, s, from) <= s.len(),
    decreases s.len() - from,
{
    if from < s.len() && !platform.divides(verbatim, s[from]) {
        lemma_component_end(platform, verbatim, s, from + 1);
    }
}

/// Nor do the components.
proof fn lemma_components_start(platform: Platform, s: Seq<u8>)
    ensures
        0 <= platform.prefix_len(s) <= s.len(),
        0 <= platform.body_start(s),
{
    reveal(Platform::prefix_len);
    lemma_component_end(platform, true, s, 8);
    lemma_component_end(platform, true, s, platform.component_end(true, s, 8) + 1);
    lemma_component_end(platform, true, s, 4);
    lemma_component_end(platform, false, s, 4);
    lemma_component_end(platform, false, s, 2);
    lemma_component_end(platform, false, s, platform.component_end(false, s, 2) + 1);
}

/// The extension of any path stands in it right behind a dot, and that dot comes right behind what
/// the path is without it.
pub proof fn law_extension_is_cut_off(platform: Platform, s: Seq<u8>)
    ensures
        match platform.extension(s) {
            Some(ext) => {
                let rest = platform.without_extension(s);
                &&& rest.len() > 0
                &&& rest + seq![0x2eu8] + ext == s.take((rest.len() + 1 + ext.len()) as int)
                &&& rest.len() + 1 + ext.len() <= s.len()
                &&& forall|i: int| 0 <= i < ext.len() ==> #[trigger] ext[i] != 0x2e
            },
            None => platform.without_extension(s).len() <= s.len()
                && platform.without_extension(s) == s.take(
                platform.without_extension(s).len() as int,
            ),
        },
{
    let verbatim = platform.is_verbatim(s);
    let start = platform.body_start(s);
    let t = platform.body(s);
    lemma_components_start(platform, s);
    platform.lemma_trimmed(verbatim, s, start);
    assert(s.take(s.len() as int) =~= s);
    if let Some(name) = platform.base_name(s) {
        platform.lemma_last_start(verbatim, t, start);
        let last = platform.last_start(verbatim, t, start);
        assert(name =~= t.skip(last));
        lemma_dot_there(name);
        let k = crate::path::stem_len(name);
        let rest = platform.without_extension(s);
        if let Some(ext) = platform.extension(s) {
            lemma_none_behind_last_dot(name);
            assert(t[last + k] == name[k]);
            assert(rest + seq![0x2eu8] + ext =~= t);
            assert forall|i: int| 0 <= i < ext.len() implies #[trigger] ext[i] != 0x2e by {
                assert(ext[i] == name[k + 1 + i]);
            }
        } else {
            assert(rest =~= s.take(rest.len() as int));
        }
    }
}

/// Behind the last dot there is none.
proof fn lemma_none_behind_last_dot(name: Seq<u8>)
    ensures
        forall|i: int|
            crate::path::last_dot(name) < i < name.len() ==> #[trigger] name[i] != 0x2e,
    decreases name.len(),
{
    if name.len() > 0 && name.last() != 0x2e {
        let less = name.drop_last();
        lemma_dot_there(less);
        lemma_none_behind_last_dot(less);
        assert forall|i: int| crate::path::last_dot(name) < i < name.len() implies #[trigger] name[i]
            != 0x2e by {
            if i < less.len() {
                assert(name[i] == less[i]);
            }
        }
    }
}

/// A component ends where the next thing is that divides components, or with the path.
proof fn lemma_component_ends_at(platform: Platform, verbatim: bool, s: Seq<u8>, from: int, end: int)
    requires
        0 <= from <= end <= s.len(),
        forall|k: int| from <= k < end ==> !platform.divides(verbatim, #[trigger] s[k]),
        end < s.len() ==> platform.divides(verbatim, s[end]),
    ensures
        platform.component_end(verbatim, s, from) == end,
    decreases end - from,
{
    if from < end {
        assert(!platform.divides(verbatim, s[from]));
        lemma_component_ends_at(platform, verbatim, s, from + 1, end);
    }
}

/// Whether `name` is not empty and holds neither `/` nor `\`.
pub open spec fn is_unbroken(name: Seq<u8>) -> bool {
    name.len() > 0 && forall|i: int| 0 <= i < name.len() ==> #[trigger] name[i] != 0x2f && name[i]
        != 0x5c
}

/// Whether nothing follows, or something that `/` or `\` sets apart.
pub open spec fn is_set_apart(rest: Seq<u8>) -> bool {
    rest.len() > 0 ==> rest[0] == 0x2f || rest[0] == 0x5c
}

/// What comes before the components of a path on Windows that names a server: the server and the share.
/// A server alone is no prefix; one that is called `.` stands for devices, and then the device is the
/// prefix.
pub proof fn law_server_prefixes(a: u8, b: u8, c: u8, server: Seq<u8>, share: Seq<u8>, rest: Seq<u8>)
    requires
        a == 0x2f || a == 0x5c,
        b == 0x2f || b == 0x5c,
        c == 0x2f || c == 0x5c,
        is_unbroken(server),
        server != seq![0x3fu8],
        is_set_apart(rest),
    ensures
        ({
            let front = seq![a, b] + server;
            let platform = Platform::Windows;
            &&& server != seq![0x2eu8] && is_unbroken(share) ==> platform.prefix_len(
                front + seq![c] + share + rest,
            ) == server.len() + share.len() + 3
            &&& server != seq![0x2eu8] ==> platform.prefix_len(front) == 0
                && platform.prefix_len(front + seq![c]) == 0
            &&& server == seq![0x2eu8] && is_unbroken(share) ==> platform.prefix_len(
                front + seq![c] + share + rest,
            ) == share.len() + 4
        }),
{
    reveal(Platform::prefix_len);
    let platform = Platform::Windows;
    let front = seq![a, b] + server;
    let one = front + seq![c];
    let whole = one + share + rest;
    let n = front.len() as int;
    let m = n + 1 + share.len();
    assert(server =~= seq![0x3fu8] <==> server.len() == 1 && server[0] == 0x3f);
    assert(server =~= seq![0x2eu8] <==> server.len() == 1 && server[0] == 0x2e);
    assert(front[2] == server[0] && one[2] == server[0] && whole[2] == server[0]);
    assert(front[0] == a && one[0] == a && whole[0] == a);
    assert(front[1] == b && one[1] == b && whole[1] == b);
    assert(one[n] == c && whole[n] == c);
    if server.len() > 1 {
        assert(front[3] == server[1] && one[3] == server[1] && whole[3] == server[1]);
    }
    assert forall|k: int| 2 <= k < n implies !platform.divides(false, #[trigger] front[k]) by {
        assert(front[k] == server[k - 2]);
    }
    assert forall|k: int| 2 <= k < n implies !platform.divides(false, #[trigger] one[k]) by {
        assert(one[k] == server[k - 2]);
    }
    assert forall|k: int| 2 <= k < n implies !platform.divides(false, #[trigger] whole[k]) by {
        assert(whole[k] == server[k - 2]);
    }
    lemma_component_ends_at(platform, false, front, 2, n);
    lemma_component_ends_at(platform, false, one, 2, n);
    lemma_component_ends_at(platform, false, whole, 2, n);
    lemma_component_ends_at(platform, false, one, n + 1, n + 1);
    if is_unbroken(share) {
        assert forall|k: int| n + 1 <= k < m implies !platform.divides(false, #[trigger] whole[k]) by {
            assert(whole[k] == share[k - n - 1]);
        }
        if rest.len() > 0 {
            assert(whole[m] == rest[0]);
        }
        lemma_component_ends_at(platform, false, whole, n + 1, m);
    }
}

/// What comes before the components of a path that Windows takes as it is, after `\\?\`: a drive; a
/// server and a share behind `UNC\`; or else one name.
pub proof fn law_verbatim_prefixes(
    letter: u8,
    name: Seq<u8>,
    server: Seq<u8>,
    share: Seq<u8>,
    rest: Seq<u8>,
)
    requires
        0x41 <= letter <= 0x5a || 0x61 <= letter <= 0x7a,
        is_unbroken(name),
        name != seq![0x55u8, 0x4e, 0x43],
        name.len() != 2 || name[1] != 0x3a,
        is_unbroken(server),
        is_unbroken(share),
        rest.len() > 0 ==> rest[0] == 0x5c,
    ensures
        ({
            let platform = Platform::Windows;
            let front = seq![0x5cu8, 0x5c, 0x3f, 0x5c];
            &&& platform.prefix_len(front + seq![letter, 0x3a] + rest) == 6
            &&& platform.prefix_len(front + name + rest) == 4 + name.len()
            &&& platform.prefix_len(
                front + seq![0x55u8, 0x4e, 0x43, 0x5c] + server + seq![0x5cu8] + share + rest,
            ) == server.len() + share.len() + 9
        }),
{
    reveal(Platform::prefix_len);
    let platform = Platform::Windows;
    let front = seq![0x5cu8, 0x5c, 0x3f, 0x5c];
    let drive = front + seq![letter, 0x3a] + rest;
    let other = front + name + rest;
    let unc = front + seq![0x55u8, 0x4e, 0x43, 0x5c] + server + seq![0x5cu8] + share + rest;
    assert(drive[0] == 0x5c && drive[1] == 0x5c && drive[2] == 0x3f && drive[3] == 0x5c);
    assert(drive[4] == letter && drive[5] == 0x3a);
    if rest.len() > 0 {
        assert(drive[6] == rest[0]);
    }
    assert(other[0] == 0x5c && other[1] == 0x5c && other[2] == 0x3f && other[3] == 0x5c);
    let n = 4 + name.len() as int;
    assert forall|k: int| 4 <= k < n implies !platform.divides(true, #[trigger] other[k])
        && other[k] == name[k - 4] by {
        assert(other[k] == name[k - 4]);
    }
    if rest.len() > 0 {
        assert(other[n] == rest[0]);
    }
    lemma_component_ends_at(platform, true, other, 4, n);
    if other.len() >= 8 && other[4] == 0x55 && other[5] == 0x4e && other[6] == 0x43
        && platform.separates(other[7]) {
        if name.len() > 3 {
            assert(other[7] == name[3]);
        } else if name.len() == 3 {
            assert(name =~= seq![0x55u8, 0x4e, 0x43]);
        } else {
            assert(other[n] == 0x5c);
        }
    }
    if other.len() >= 6 && other[5] == 0x3a {
        if name.len() == 1 {
            assert(other[5] == rest[0]);
        }
        assert(name[1] == 0x3a);
        if name.len() > 2 {
            assert(other[6] == name[2]);
        }
    }
    assert(unc[0] == 0x5c && unc[1] == 0x5c && unc[2] == 0x3f && unc[3] == 0x5c);
    assert(unc[4] == 0x55 && unc[5] == 0x4e && unc[6] == 0x43 && unc[7] == 0x5c);
    let m = 8 + server.len() as int;
    let e = m + 1 + share.len();
    assert forall|k: int| 8 <= k < m implies !platform.divides(true, #[trigger] unc[k]) by {
        assert(unc[k] == server[k - 8]);
    }
    assert(unc[m] == 0x5c);
    lemma_component_ends_at(platform, true, unc, 8, m);
    assert forall|k: int| m + 1 <= k < e implies !platform.divides(true, #[trigger] unc[k]) by {
        assert(unc[k] == share[k - m - 1]);
    }
    if rest.len() > 0 {
        assert(unc[e] == rest[0]);
    }
    lemma_component_ends_at(platform, true, unc, m + 1, e);
}

/// Windows takes a path as it is just if it starts with `\\?\`, and nothing else does that.
pub proof fn law_verbatim_paths(platform: Platform, s: Seq<u8>)
    ensures
        platform.is_verbatim(s) <==> platform is Windows && s.len() >= 4 && s.take(4) == seq![
            0x5cu8,
            0x5c,
            0x3f,
            0x5c,
        ],
{
    if s.len() >= 4 {
        let t = s.take(4);
        let front = seq![0x5cu8, 0x5c, 0x3f, 0x5c];
        assert(t[0] == s[0] && t[1] == s[1] && t[2] == s[2] && t[3] == s[3]);
        assert(t =~= front <==> t[0] == 0x5c && t[1] == 0x5c && t[2] == 0x3f && t[3] == 0x5c);
    }
}

/// Whether `b` divides the components of a path: only `\` where Windows takes the path as it is.
pub open spec fn divides_components(platform: Platform, is_verbatim: bool, b: u8) -> bool {
    b == 0x5c && platform is Windows || b == 0x2f && !is_verbatim
}

/// Whether `s` goes on behind a prefix of `n` bytes, with a separator for its root.
pub open spec fn is_behind_prefix(platform: Platform, s: Seq<u8>, n: int) -> bool {
    &&& platform is Windows
    &&& platform.prefix_len(s) == n
    &&& 2 < n < s.len()
    &&& ends_name(platform, s[n])
}

/// Where a name starts that comes behind a prefix.
proof fn lemma_name_behind_prefix(platform: Platform, s: Seq<u8>, n: int, at: int)
    requires
        is_behind_prefix(platform, s, n),
        n < at < s.len(),
        at == n + 1 || divides_components(platform, platform.is_verbatim(s), s[at - 1]),
        forall|k: int|
            at <= k < s.len() ==> !divides_components(
                platform,
                platform.is_verbatim(s),
                #[trigger] s[k],
            ),
        platform.is_verbatim(s) || s.skip(at) != seq![0x2eu8],
    ensures
        platform.body_start(s) == n + 1,
        platform.last_start(platform.is_verbatim(s), s, n + 1) == at,
        platform.body(s) == s,
{
    let v = platform.is_verbatim(s);
    lemma_not_dotted_behind_prefix(platform, s, n);
    let start = platform.body_start(s);
    assert(start == n + 1);
    crate::path_laws::lemma_last_component(platform, v, s, start);
    let last = platform.last_start(v, s, start);
    if last > at {
        assert(platform.divides(v, s[last - 1]));
    }
    if last < at {
        assert(!platform.divides(v, s[at - 1]));
    }
    assert(s.skip(at).len() > 0);
    assert(crate::path::current_dir() =~= seq![0x2eu8]);
    assert(platform.trimmed(v, s, start) == s);
}

/// A path with a longer prefix than a drive does not start with the folder itself.
proof fn lemma_not_dotted_behind_prefix(platform: Platform, s: Seq<u8>, n: int)
    requires
        is_behind_prefix(platform, s, n),
    ensures
        !crate::path::begins_with_drive(s),
        platform.is_rooted(s),
        !platform.is_dotted(s),
        platform.body_start(s) == n + 1,
{
    reveal(Platform::prefix_len);
}

/// The folder of a path behind a prefix that only Windows has is what comes before its last name; right
/// behind the prefix, that is the root.
pub proof fn law_parent_behind_prefix(platform: Platform, s: Seq<u8>, n: int, at: int)
    requires
        is_behind_prefix(platform, s, n),
        n < at < s.len(),
        at == n + 1 || divides_components(platform, platform.is_verbatim(s), s[at - 1]),
        forall|k: int|
            at <= k < s.len() ==> !divides_components(
                platform,
                platform.is_verbatim(s),
                #[trigger] s[k],
            ),
        platform.is_verbatim(s) || s.skip(at) != seq![0x2eu8],
        at > n + 1 ==> !divides_components(platform, platform.is_verbatim(s), s[at - 2])
            && s[at - 2] != 0x2e,
    ensures
        platform.parent(s) == Some(
            s.take(
                if at == n + 1 {
                    at
                } else {
                    at - 1
                },
            ),
        ),
{
    let v = platform.is_verbatim(s);
    let start = n + 1;
    lemma_name_behind_prefix(platform, s, n, at);
    lemma_not_dotted_behind_prefix(platform, s, n);
    let d = platform.without_last(v, s, start);
    if at > start {
        assert(d =~= s.take(at - 1));
        if start < d.len() {
            crate::path_laws::lemma_last_component(platform, v, d, start);
            let last = platform.last_start(v, d, start);
            assert(d.last() == s[at - 2]);
            if last == d.len() {
                assert(platform.divides(v, d[last - 1]));
            }
            assert(d.skip(last).last() == d.last());
            assert(d.skip(last) != crate::path::current_dir());
            assert(platform.trimmed(v, d, start) == d);
        }
    } else {
        assert(d =~= s.take(start));
    }
}

/// The extension of a path behind a prefix that only Windows has is what follows the last dot of its last
/// name, unless that starts with it.
pub proof fn law_extension_behind_prefix(platform: Platform, s: Seq<u8>, n: int, at: int, dot: int)
    requires
        is_behind_prefix(platform, s, n),
        n < at < dot < s.len() - 1,
        at == n + 1 || divides_components(platform, platform.is_verbatim(s), s[at - 1]),
        forall|k: int|
            at <= k < s.len() ==> !divides_components(
                platform,
                platform.is_verbatim(s),
                #[trigger] s[k],
            ),
        s[dot] == 0x2e,
        forall|k: int| dot < k < s.len() ==> #[trigger] s[k] != 0x2e,
    ensures
        platform.extension(s) == Some(s.skip(dot + 1)),
        platform.without_extension(s) == s.take(dot),
{
    let name = s.skip(at);
    let ext = s.skip(dot + 1);
    let part = s.subrange(at, dot);
    assert(name =~= part + seq![0x2eu8] + ext);
    assert(name.last() == s[s.len() - 1]);
    assert(name != seq![0x2eu8]);
    lemma_name_behind_prefix(platform, s, n, at);
    assert(name != crate::path::current_dir());
    assert(name != crate::path::parent_dir()) by {
        assert(name.last() != 0x2e);
        assert(crate::path::parent_dir()[1] == 0x2e);
    }
    assert(platform.base_name(s) == Some(name));
    assert forall|i: int| 0 <= i < ext.len() implies #[trigger] ext[i] != 0x2e by {
        assert(ext[i] == s[dot + 1 + i]);
    }
    lemma_last_dot(part, ext);
    assert(name.skip((part.len() + 1) as int) =~= ext);
    assert(s.take(s.len() - name.len() + part.len()) =~= s.take(dot));
}

/// A name behind a prefix that only Windows has is one more component.
pub proof fn law_key_behind_prefix(platform: Platform, s: Seq<u8>, n: int, at: int)
    requires
        is_behind_prefix(platform, s, n),
        n < at < s.len(),
        at == n + 1 || divides_components(platform, platform.is_verbatim(s), s[at - 1]),
        forall|k: int|
            at <= k < s.len() ==> !divides_components(
                platform,
                platform.is_verbatim(s),
                #[trigger] s[k],
            ),
        platform.is_verbatim(s) || s.skip(at) != seq![0x2eu8],
    ensures
        ({
            let v = platform.is_verbatim(s);
            let key = platform.path_key(s);
            &&& key.prefix == s.take(n)
            &&& key.rooted
            &&& !key.dotted
            &&& at == n + 1 ==> key.components == seq![s.skip(at)]
            &&& at > n + 1 ==> key.components == platform.components(v, s.take(at - 1), n + 1).push(
                s.skip(at),
            )
        }),
{
    let v = platform.is_verbatim(s);
    let start = n + 1;
    lemma_name_behind_prefix(platform, s, n, at);
    lemma_not_dotted_behind_prefix(platform, s, n);
    let d = platform.without_last(v, s, start);
    if at > start {
        assert(d =~= s.take(at - 1));
    } else {
        assert(d =~= s.take(start));
        assert(platform.trimmed(v, d, start) == d);
        assert(platform.components(v, d, start) =~= Seq::empty());
        assert(platform.components(v, s, start) =~= seq![s.skip(at)]);
    }
}

/// Separators at the end of a path, and a `.` behind one, change neither its extension nor its folder, nor
/// what it is without the extension if it names a file.
pub proof fn law_endings_are_ignored(platform: Platform, d: Seq<u8>, sep: u8)
    requires
        ends_name(platform, sep),
        is_simple(platform, d.push(sep)),
        d.len() > drive_len(platform, d),
    ensures
        platform.extension(d.push(sep)) == platform.extension(d),
        platform.extension(d.push(sep).push(0x2e)) == platform.extension(d),
        platform.parent(d.push(sep)) == platform.parent(d),
        platform.parent(d.push(sep).push(0x2e)) == platform.parent(d),
        platform.base_name(d) is Some ==> {
            &&& platform.without_extension(d.push(sep)) == platform.without_extension(d)
            &&& platform.without_extension(d.push(sep).push(0x2e)) == platform.without_extension(d)
        },
{
    let one = d.push(sep);
    let two = one.push(0x2e);
    let none = Seq::<u8>::empty();
    let dot = seq![0x2eu8];
    assert(one + none =~= one);
    assert(one + dot =~= two);
    assert(two[0] == one[0]);
    assert(two[1] == one[1]);
    lemma_begins_alike(platform, d, sep, none);
    lemma_begins_alike(platform, d, sep, dot);
    lemma_trims_alike(platform, d, sep);
    let start = platform.body_start(d);
    let t = platform.body(d);
    platform.lemma_trimmed(false, d, start);
    assert(platform.body(one) == t && platform.body(two) == t);
    assert(platform.base_name(one) == platform.base_name(d));
    assert(platform.base_name(two) == platform.base_name(d));
    if let Some(name) = platform.base_name(d) {
        platform.lemma_last_start(false, t, start);
        let last = platform.last_start(false, t, start);
        assert(name.len() == t.len() - last);
        lemma_dot_there(name);
        let k = t.len() - name.len() + crate::path::stem_len(name);
        assert(0 <= k <= d.len());
        assert(one.take(k) =~= d.take(k));
        assert(two.take(k) =~= d.take(k));
    }
    if platform.is_dotted(d) {
        assert(one.take(start - 1) =~= d.take(start - 1));
        assert(two.take(start - 1) =~= d.take(start - 1));
    }
}

/// Separators at the end of a path, and a `.` behind one, are trimmed.
proof fn lemma_trims_alike(platform: Platform, d: Seq<u8>, sep: u8)
    requires
        ends_name(platform, sep),
        0 <= platform.body_start(d) <= d.len(),
    ensures
        ({
            let start = platform.body_start(d);
            &&& platform.trimmed(false, d.push(sep), start) == platform.trimmed(false, d, start)
            &&& platform.trimmed(false, d.push(sep).push(0x2e), start) == platform.trimmed(
                false,
                d,
                start,
            )
        }),
{
    let one = d.push(sep);
    let two = one.push(0x2e);
    let start = platform.body_start(d);
    crate::path_laws::lemma_last_component(platform, false, one, start);
    let last = platform.last_start(false, one, start);
    if last < one.len() {
        assert(!platform.divides(false, one[one.len() - 1]));
    }
    assert(platform.without_last(false, one, start) =~= d);
    assert(one.skip(last).len() == 0);
    crate::path_laws::lemma_last_component(platform, false, two, start);
    let last = platform.last_start(false, two, start);
    assert(two[two.len() - 2] == sep);
    assert(two[two.len() - 1] == 0x2e);
    if last < one.len() {
        assert(!platform.divides(false, two[two.len() - 2]));
    }
    if last == two.len() {
        assert(platform.divides(false, two[last - 1]));
    }
    assert(two.skip(last) =~= crate::path::current_dir());
    assert(platform.without_last(false, two, start) =~= d);
}

/// Folder, spelling and identity of a path go by its bytes: the folder is spelled as what comes before the
/// last name, joining goes on from the bytes of the folder, and paths that are spelled alike are the same.
pub proof fn law_paths_go_by_their_bytes(path: PathView, other: PathView, part: Seq<u8>)
    ensures
        match path.platform.parent(path.bytes()) {
            Some(folder) => path.parent() matches Some(p) && p.bytes() == folder && p.platform
                == path.platform,
            None => path.parent() is None,
        },
        path.join(part).bytes() == path.platform.join_bytes(path.bytes(), part),
        path.join(part).platform == path.platform,
        path.platform == other.platform && path.bytes() == other.bytes() ==> path.key()
            == other.key(),
        path.key() == path.platform.path_key(path.bytes()),
        path.shown() == crate::text::lossy(path.bytes()),
        path.parts.len() == 0 ==> path.bytes() == path.root,
        path.parts.len() == 0 ==> path.without_extension().bytes()
            == path.platform.without_extension(path.bytes()),
{
    assert(path.join(part).parts.drop_last() =~= path.parts);
}

/// The folder of an entry that goes by a name with a break in it is spelled as the output folder and what
/// comes before the last break; there is always one.
pub proof fn law_folders_of_entries(path: PathView, d: Seq<u8>, sep: u8, name: Seq<u8>)
    requires
        path.bytes() == d.push(sep) + name,
        ends_name(path.platform, sep),
        is_name(path.platform, name),
        is_simple(path.platform, d.push(sep) + name),
        d.len() > drive_len(path.platform, d),
        ends_with_name(path.platform, d),
    ensures
        path.parent() matches Some(folder) && folder.bytes() == d && folder.platform == path.platform,
{
    law_parent(path.platform, d, sep, name);
}

} // verus!
