//! How paths are spelled that Windows takes as they are.

use vstd::prelude::*;

use crate::path::Platform;

verus! {

/// Whether these are names that can stand between backslashes.
pub open spec fn are_plain(names: Seq<Seq<u8>>) -> bool {
    forall|i: int| 0 <= i < names.len() ==> is_plain_name(#[trigger] names[i])
}

/// Whether a name is not empty and holds no backslash.
pub open spec fn is_plain_name(name: Seq<u8>) -> bool {
    name.len() > 0 && forall|k: int| 0 <= k < name.len() ==> #[trigger] name[k] != 0x5c
}

/// Names with backslashes before them start with one, end with none, and hold no two in a row.
pub proof fn lemma_backslashed_tidy(names: Seq<Seq<u8>>)
    requires
        are_plain(names),
    ensures
        ({
            let s = crate::path::backslashed(names);
            &&& s.len() >= 2 * names.len()
            &&& names.len() > 0 ==> s[0] == 0x5c && s.last() != 0x5c
            &&& forall|i: int|
                0 <= i < s.len() - 1 ==> !(#[trigger] s[i] == 0x5c && s[i + 1] == 0x5c)
        }),
    decreases names.len(),
{
    if names.len() > 0 {
        let front = names.drop_last();
        assert forall|i: int| 0 <= i < front.len() implies is_plain_name(#[trigger] front[i]) by {
            assert(front[i] == names[i]);
        }
        lemma_backslashed_tidy(front);
        let before = crate::path::backslashed(front);
        let last = names[names.len() - 1];
        assert(is_plain_name(last));
        let s = crate::path::backslashed(names);
        assert(s =~= before.push(0x5c) + last);
        assert forall|i: int| 0 <= i < s.len() - 1 implies !(#[trigger] s[i] == 0x5c && s[i + 1]
            == 0x5c) by {
            if i < before.len() - 1 {
                assert(s[i] == before[i] && s[i + 1] == before[i + 1]);
            } else if i == before.len() - 1 {
                assert(s[i] == before.last());
            } else {
                assert(s[i + 1] == last[i - before.len()]);
            }
        }
        assert(s.last() == last[last.len() - 1]);
        if front.len() > 0 {
            assert(s[0] == before[0]);
        }
    }
}

/// Names that are spelled alike are the same.
pub proof fn lemma_backslashed_injective(a: Seq<Seq<u8>>, b: Seq<Seq<u8>>)
    requires
        are_plain(a),
        are_plain(b),
        crate::path::backslashed(a) == crate::path::backslashed(b),
    ensures
        a == b,
    decreases a.len(),
{
    lemma_backslashed_tidy(a);
    lemma_backslashed_tidy(b);
    if a.len() == 0 || b.len() == 0 {
        assert(a =~= b);
    } else {
        let s = crate::path::backslashed(a);
        let (x, y) = (crate::path::backslashed(a.drop_last()), crate::path::backslashed(b.drop_last()));
        let (la, lb) = (a[a.len() - 1], b[b.len() - 1]);
        assert(is_plain_name(la) && is_plain_name(lb));
        assert(s =~= x.push(0x5c) + la);
        assert(s =~= y.push(0x5c) + lb);
        if x.len() < y.len() {
            assert(s[y.len() as int] == 0x5c);
            assert(s[y.len() as int] == la[y.len() - x.len() - 1]);
        }
        if y.len() < x.len() {
            assert(s[x.len() as int] == 0x5c);
            assert(s[x.len() as int] == lb[x.len() - y.len() - 1]);
        }
        assert(x =~= s.take(x.len() as int));
        assert(y =~= s.take(y.len() as int));
        assert(la =~= s.skip(x.len() as int + 1));
        assert(lb =~= s.skip(y.len() as int + 1));
        assert forall|i: int| 0 <= i < a.drop_last().len() implies is_plain_name(
            #[trigger] a.drop_last()[i],
        ) by {
            assert(a.drop_last()[i] == a[i]);
        }
        assert forall|i: int| 0 <= i < b.drop_last().len() implies is_plain_name(
            #[trigger] b.drop_last()[i],
        ) by {
            assert(b.drop_last()[i] == b[i]);
        }
        lemma_backslashed_injective(a.drop_last(), b.drop_last());
        assert(a =~= a.drop_last().push(la));
        assert(b =~= b.drop_last().push(lb));
    }
}

/// Names that do not lead back are walked through one after the other.
pub proof fn lemma_walked(from: Seq<Seq<u8>>, names: Seq<Seq<u8>>)
    requires
        !names.contains(crate::path::parent_dir()),
    ensures
        crate::path::walked(from, names) == from + names,
    decreases names.len(),
{
    if names.len() == 0 {
        assert(from + names =~= from);
    } else {
        let front = names.drop_last();
        if front.contains(crate::path::parent_dir()) {
            let i = front.index_of(crate::path::parent_dir());
            assert(names[i] == crate::path::parent_dir());
        }
        lemma_walked(from, front);
        assert(names[names.len() - 1] == names.last());
        assert((from + front).push(names.last()) =~= from + names);
    }
}

/// No piece holds a separator.
proof fn lemma_pieces_plain(platform: Platform, s: Seq<u8>, i: int, k: int)
    requires
        0 <= i < platform.pieces(s).len(),
        0 <= k < platform.pieces(s)[i].len(),
    ensures
        !platform.separates(platform.pieces(s)[i][k]),
    decreases s.len(),
{
    if s.len() > 0 {
        let before = platform.pieces(s.drop_last());
        crate::place_laws::lemma_some_piece(platform, s.drop_last());
        let n = before.len() - 1;
        if platform.separates(s.last()) {
            if i <= n {
                lemma_pieces_plain(platform, s.drop_last(), i, k);
            }
        } else if i < n {
            lemma_pieces_plain(platform, s.drop_last(), i, k);
        } else if k < before[n].len() {
            lemma_pieces_plain(platform, s.drop_last(), n, k);
        }
    }
}

/// The proper ones among pieces that hold no backslash are plain names.
proof fn lemma_proper_names_plain(pieces: Seq<Seq<u8>>)
    requires
        forall|i: int, k: int|
            0 <= i < pieces.len() && 0 <= k < pieces[i].len() ==> #[trigger] pieces[i][k] != 0x5c,
    ensures
        are_plain(crate::path::proper_names(pieces)),
    decreases pieces.len(),
{
    if pieces.len() > 0 {
        let front = pieces.drop_last();
        assert forall|i: int, k: int|
            0 <= i < front.len() && 0 <= k < front[i].len() implies #[trigger] front[i][k]
            != 0x5c by {
            assert(front[i][k] == pieces[i][k]);
        }
        lemma_proper_names_plain(front);
        let last = pieces[pieces.len() - 1];
        assert forall|k: int| 0 <= k < last.len() implies #[trigger] last[k] != 0x5c by {
            assert(pieces[pieces.len() - 1][k] != 0x5c);
        }
    }
}

/// The names of a path on Windows are plain.
pub proof fn lemma_names_plain(platform: Platform, part: Seq<u8>)
    requires
        platform is Windows,
    ensures
        are_plain(platform.names(part)),
{
    let pieces = platform.pieces(part);
    assert forall|i: int, k: int|
        0 <= i < pieces.len() && 0 <= k < pieces[i].len() implies #[trigger] pieces[i][k]
        != 0x5c by {
        lemma_pieces_plain(platform, part, i, k);
    }
    lemma_proper_names_plain(pieces);
}

/// The last component holds nothing that divides components, and something that does comes before
/// it unless it is the first.
pub proof fn lemma_last_component(platform: Platform, verbatim: bool, s: Seq<u8>, start: int)
    requires
        0 <= start < s.len(),
    ensures
        ({
            let last = platform.last_start(verbatim, s, start);
            &&& start <= last <= s.len()
            &&& last > start ==> platform.divides(verbatim, s[last - 1])
            &&& forall|k: int|
                last <= k < s.len() ==> !platform.divides(verbatim, #[trigger] s[k])
        }),
    decreases s.len(),
{
    if !platform.divides(verbatim, s.last()) {
        let front = s.drop_last();
        let last = platform.last_start(verbatim, s, start);
        assert(last == platform.last_start(verbatim, front, start));
        if front.len() > start {
            lemma_last_component(platform, verbatim, front, start);
            assert forall|k: int| last <= k < s.len() implies !platform.divides(
                verbatim,
                #[trigger] s[k],
            ) by {
                if k < front.len() {
                    assert(s[k] == front[k]);
                }
            }
            if last > start {
                assert(s[last - 1] == front[last - 1]);
            }
        }
    }
}

/// The components of a path that is taken as it is are plain names.
pub proof fn lemma_components_plain(platform: Platform, s: Seq<u8>, start: int)
    requires
        0 <= start <= s.len(),
    ensures
        are_plain(platform.components(true, s, start)),
    decreases s.len(),
{
    let t = platform.trimmed(true, s, start);
    platform.lemma_trimmed(true, s, start);
    if t.len() > start {
        platform.lemma_last_start(true, t, start);
        platform.lemma_trimmed_names(true, s, start);
        lemma_last_component(platform, true, t, start);
        let last = platform.last_start(true, t, start);
        let rest = platform.without_last(true, t, start);
        lemma_components_plain(platform, rest, start);
        let name = t.skip(last);
        assert forall|k: int| 0 <= k < name.len() implies #[trigger] name[k] != 0x5c by {
            assert(name[k] == t[last + k]);
        }
        assert(is_plain_name(name));
    }
}

/// A component ends at the next backslash or with the path.
proof fn lemma_component_end(platform: Platform, s: Seq<u8>, from: int)
    requires
        0 <= from <= s.len(),
    ensures
        ({
            let end = platform.component_end(true, s, from);
            &&& from <= end <= s.len()
            &&& end < s.len() ==> s[end] == 0x5c
            &&& forall|k: int| from <= k < end ==> #[trigger] s[k] != 0x5c
        }),
    decreases s.len() - from,
{
    if from < s.len() && s[from] != 0x5c {
        lemma_component_end(platform, s, from + 1);
    }
}

/// Whether `s` starts with a server, where it is taken as it is.
spec fn has_server(platform: Platform, s: Seq<u8>) -> bool {
    s.len() >= 8 && s[4] == 0x55 && s[5] == 0x4e && s[6] == 0x43 && platform.separates(s[7])
}

/// Whether `s` starts with a drive, where it is taken as it is.
spec fn has_drive(platform: Platform, s: Seq<u8>) -> bool {
    s.len() >= 6 && crate::path::is_letter(s[4]) && s[5] == 0x3a && (s.len() == 6
        || platform.separates(s[6]))
}

/// What the prefix is of a path that is taken as it is.
proof fn lemma_prefix(platform: Platform, s: Seq<u8>)
    requires
        platform.is_verbatim(s),
    ensures
        ({
            let p = platform.prefix_len(s);
            let server = platform.component_end(true, s, 8);
            let share = platform.component_end(true, s, server + 1);
            &&& 4 <= p <= s.len()
            &&& has_server(platform, s) ==> p == if share > server + 1 {
                share
            } else {
                server
            }
            &&& !has_server(platform, s) && has_drive(platform, s) ==> p == 6
            &&& !has_server(platform, s) && !has_drive(platform, s) ==> p
                == platform.component_end(true, s, 4)
        }),
{
    reveal(Platform::prefix_len);
    lemma_component_end(platform, s, 4);
    if has_server(platform, s) {
        lemma_component_end(platform, s, 8);
        let server = platform.component_end(true, s, 8);
        if server < s.len() {
            lemma_component_end(platform, s, server + 1);
        }
    }
}

/// The prefix of a path that is taken as it is goes on being one, or part of one, where names with
/// backslashes before them follow it.
proof fn lemma_prefix_goes_on(platform: Platform, s: Seq<u8>, t: Seq<u8>)
    requires
        platform.is_verbatim(s),
        ({
            let p = platform.prefix_len(s);
            &&& p < t.len()
            &&& t.take(p) == s.take(p)
            &&& t[p] == 0x5c
        }),
    ensures
        platform.is_verbatim(t),
        platform.prefix_len(s) <= platform.prefix_len(t) <= t.len(),
        platform.prefix_len(t) < t.len() ==> t[platform.prefix_len(t)] == 0x5c,
{
    let p = platform.prefix_len(s);
    lemma_prefix(platform, s);
    assert forall|k: int| 0 <= k < p implies t[k] == #[trigger] s[k] by {
        assert(t[k] == t.take(p)[k]);
        assert(s[k] == s.take(p)[k]);
    }
    assert(platform.is_verbatim(t)) by {
        assert(t[0] == s[0] && t[1] == s[1] && t[2] == s[2] && t[3] == s[3]);
    }
    lemma_prefix(platform, t);
    lemma_component_end(platform, t, 4);
    lemma_component_end(platform, s, 4);
    if has_server(platform, s) {
        lemma_component_end(platform, s, 8);
        lemma_component_end(platform, t, 8);
        let server = platform.component_end(true, s, 8);
        assert(t[4] == s[4] && t[5] == s[5] && t[6] == s[6] && t[7] == s[7]);
        let there = platform.component_end(true, t, 8);
        if there < p && there < server {
            assert(t[there] == s[there]);
        }
        if server < s.len() {
            lemma_component_end(platform, s, server + 1);
            let share = platform.component_end(true, s, server + 1);
            if share > server + 1 {
                assert(t[server] == s[server]);
                assert(there == server);
                lemma_component_end(platform, t, server + 1);
                let end = platform.component_end(true, t, server + 1);
                if end < p {
                    assert(t[end] == s[end]);
                }
            }
        }
        if there < t.len() {
            lemma_component_end(platform, t, there + 1);
        }
    } else if has_drive(platform, s) {
        assert(t[4] == s[4] && t[5] == s[5]);
    } else {
        if has_server(platform, t) {
            lemma_component_end(platform, t, 8);
            let there = platform.component_end(true, t, 8);
            if there < t.len() {
                lemma_component_end(platform, t, there + 1);
            }
            if p > 7 {
                assert(t[4] == s[4] && t[5] == s[5] && t[6] == s[6] && t[7] == s[7]);
            }
        } else if has_drive(platform, t) {
            if p > 5 {
                assert(t[4] == s[4] && t[5] == s[5]);
            }
            if p > 6 {
                assert(t[6] == s[6]);
            }
        } else {
            let end = platform.component_end(true, t, 4);
            if end < p {
                assert(t[end] == s[end]);
            }
        }
    }
}

/// Whether what follows the first `q` bytes of `s` is spelled as names with backslashes before them.
spec fn is_tidy(s: Seq<u8>, q: int) -> bool {
    &&& 0 <= q <= s.len()
    &&& q < s.len() ==> s[q] == 0x5c && s.last() != 0x5c
    &&& forall|i: int| q <= i < s.len() - 1 ==> !(#[trigger] s[i] == 0x5c && s[i + 1] == 0x5c)
}

/// A path that is spelled like that is its prefix, and its components with backslashes before them.
proof fn lemma_taken_apart(platform: Platform, s: Seq<u8>, q: int, end: int)
    requires
        is_tidy(s, q),
        q + 1 < end <= s.len(),
        s[end - 1] != 0x5c,
    ensures
        s.take(end) == s.take(q) + crate::path::backslashed(
            platform.components(true, s.take(end), q + 1),
        ),
    decreases end,
{
    let t = s.take(end);
    let start = q + 1;
    lemma_last_component(platform, true, t, start);
    platform.lemma_last_start(true, t, start);
    assert(t.last() == s[end - 1]);
    let last = platform.last_start(true, t, start);
    assert(platform.trimmed(true, t, start) == t);
    let name = t.skip(last);
    let rest = platform.without_last(true, t, start);
    let before = platform.components(true, rest, start);
    let all = platform.components(true, t, start);
    assert(all == before.push(name));
    assert(all.drop_last() =~= before);
    if last > start {
        assert(t[last - 1] == s[last - 1]);
        assert(rest =~= s.take(last - 1));
        assert(!(s[last - 2] == 0x5c && s[last - 2 + 1] == 0x5c));
        if last - 1 == start {
            assert(s[q] == 0x5c && s[q + 1] == 0x5c);
        }
        lemma_taken_apart(platform, s, q, last - 1);
        assert(t =~= s.take(last - 1).push(0x5c) + name);
        assert(t =~= s.take(q) + crate::path::backslashed(all));
    } else {
        assert(rest =~= s.take(start));
        assert(platform.trimmed(true, rest, start) == rest);
        assert(before =~= Seq::empty());
        assert(crate::path::backslashed(before) =~= Seq::empty());
        assert(s.take(q).push(0x5c) + name =~= t);
        assert(crate::path::backslashed(all) =~= Seq::<u8>::empty().push(0x5c) + name);
        assert(t =~= s.take(q) + crate::path::backslashed(all));
    }
}

/// A path that is taken as it is, with a relative path joined to it that does not lead back.
pub proof fn lemma_join_verbatim(platform: Platform, s: Seq<u8>, part: Seq<u8>)
    requires
        platform.is_verbatim(s),
        part.len() > 0,
        !platform.names(part).contains(crate::path::parent_dir()),
    ensures
        platform.join_bytes(s, part) == platform.respelled(
            s,
            platform.components(true, s, platform.body_start(s)) + platform.names(part),
        ),
{
    lemma_walked(platform.components(true, s, platform.body_start(s)), platform.names(part));
}

/// Joining a name to a path that is spelled as its prefix and names adds the name with a backslash
/// before it.
proof fn lemma_join_tidy(platform: Platform, t: Seq<u8>, part: Seq<u8>)
    requires
        platform.is_verbatim(t),
        is_tidy(t, platform.prefix_len(t)),
        platform.names(part) == seq![part],
        part.len() > 0,
        part != crate::path::parent_dir(),
    ensures
        platform.join_bytes(t, part) == t.push(0x5c) + part,
{
    let q = platform.prefix_len(t);
    let start = platform.body_start(t);
    lemma_prefix(platform, t);
    if seq![part].contains(crate::path::parent_dir()) {
        assert(seq![part][0] == crate::path::parent_dir());
    }
    lemma_join_verbatim(platform, t, part);
    let components = platform.components(true, t, start);
    let all = components + seq![part];
    assert(all.drop_last() =~= components);
    assert(t.take(t.len() as int) =~= t);
    if q < t.len() {
        assert(start == q + 1);
        if t.len() == q + 1 {
            assert(t.last() == t[q]);
        }
        lemma_taken_apart(platform, t, q, t.len() as int);
    } else {
        assert(start == t.len());
        assert(platform.trimmed(true, t, start) == t);
        assert(components =~= Seq::empty());
        assert(crate::path::backslashed(components) =~= Seq::empty());
        assert(t.take(q) =~= t);
    }
    assert(platform.respelled(t, all) =~= t.push(0x5c) + part);
}

/// Joining a name to a path that is a prefix alone, with neither server nor drive, adds it with a
/// backslash before it.
pub proof fn lemma_join_to_prefix(platform: Platform, t: Seq<u8>, part: Seq<u8>)
    requires
        platform.is_verbatim(t),
        t.len() > 5,
        t[5] != 0x4e && t[5] != 0x3a,
        forall|k: int| 4 <= k < t.len() ==> #[trigger] t[k] != 0x5c,
        platform.names(part) == seq![part],
        part.len() > 0,
        part != crate::path::parent_dir(),
    ensures
        platform.join_bytes(t, part) == t.push(0x5c) + part,
{
    lemma_prefix(platform, t);
    lemma_component_end(platform, t, 4);
    lemma_join_tidy(platform, t, part);
}

/// The components of a path that is taken as it is start within it.
pub proof fn lemma_body_start(platform: Platform, s: Seq<u8>)
    requires
        platform.is_verbatim(s),
    ensures
        0 <= platform.body_start(s) <= s.len(),
{
    lemma_prefix(platform, s);
}

/// Where names with backslashes before them follow a prefix, that is how the path is spelled.
proof fn lemma_respelled_tidy(platform: Platform, s: Seq<u8>, names: Seq<Seq<u8>>)
    requires
        platform.is_verbatim(s),
        names.len() > 0,
        are_plain(names),
    ensures
        platform.is_verbatim(platform.respelled(s, names)),
        is_tidy(
            platform.respelled(s, names),
            platform.prefix_len(platform.respelled(s, names)),
        ),
{
    let p = platform.prefix_len(s);
    let t = platform.respelled(s, names);
    let tail = crate::path::backslashed(names);
    lemma_prefix(platform, s);
    lemma_backslashed_tidy(names);
    assert(t.take(p) =~= s.take(p));
    assert(t[p] == tail[0]);
    lemma_prefix_goes_on(platform, s, t);
    let q = platform.prefix_len(t);
    assert forall|i: int| q <= i < t.len() - 1 implies !(#[trigger] t[i] == 0x5c && t[i + 1]
        == 0x5c) by {
        assert(t[i] == tail[i - p] && t[i + 1] == tail[i - p + 1]);
    }
    assert(t.last() == tail.last());
}

/// Joining one name after others adds it with a backslash before it.
pub proof fn lemma_join_further(
    platform: Platform,
    s: Seq<u8>,
    names: Seq<Seq<u8>>,
    part: Seq<u8>,
)
    requires
        platform.is_verbatim(s),
        names.len() > 0,
        are_plain(names),
        platform.names(part) == seq![part],
        part.len() > 0,
        part != crate::path::parent_dir(),
    ensures
        platform.join_bytes(platform.respelled(s, names), part) == platform.respelled(
            s,
            names.push(part),
        ),
{
    let t = platform.respelled(s, names);
    lemma_respelled_tidy(platform, s, names);
    lemma_join_tidy(platform, t, part);
    assert(names.push(part).drop_last() =~= names);
    assert(platform.respelled(s, names.push(part)) =~= t.push(0x5c) + part);
}

/// Paths with the same prefix and root that are spelled alike have the same components.
pub proof fn lemma_respelled_injective(
    platform: Platform,
    s: Seq<u8>,
    a: Seq<Seq<u8>>,
    b: Seq<Seq<u8>>,
)
    requires
        are_plain(a),
        are_plain(b),
        platform.respelled(s, a) == platform.respelled(s, b),
    ensures
        a == b,
{
    let front = s.take(platform.prefix_len(s));
    lemma_backslashed_tidy(a);
    lemma_backslashed_tidy(b);
    let x = platform.respelled(s, a).skip(front.len() as int);
    if a.len() == 0 && platform.is_rooted(s) {
        assert(x =~= seq![0x5cu8]);
    } else {
        assert(x =~= crate::path::backslashed(a));
    }
    if b.len() == 0 && platform.is_rooted(s) {
        assert(x =~= seq![0x5cu8]);
    } else {
        assert(x =~= crate::path::backslashed(b));
    }
    if a.len() == 0 || b.len() == 0 {
        assert(x.len() <= 1);
        assert(a =~= b);
    } else {
        lemma_backslashed_injective(a, b);
    }
}

/// Joining a name to a path that Windows takes as it is, and that is spelled with a drive and names with
/// one backslash before each of them, adds the name with a backslash before it.
pub proof fn law_join_verbatim_name(t: Seq<u8>, name: Seq<u8>)
    requires
        t.len() >= 6,
        t[0] == 0x5c && t[1] == 0x5c && t[2] == 0x3f && t[3] == 0x5c,
        0x41 <= t[4] <= 0x5a || 0x61 <= t[4] <= 0x7a,
        t[5] == 0x3a,
        t.len() > 6 ==> t[6] == 0x5c && t.last() != 0x5c,
        forall|i: int| 6 <= i < t.len() - 1 ==> !(#[trigger] t[i] == 0x5c && t[i + 1] == 0x5c),
        name.len() > 0,
        name != seq![0x2eu8],
        name != seq![0x2eu8, 0x2e],
        forall|i: int| 0 <= i < name.len() ==> #[trigger] name[i] != 0x2f && name[i] != 0x5c,
    ensures
        Platform::Windows.join_bytes(t, name) == t + seq![0x5cu8] + name,
{
    let platform = Platform::Windows;
    lemma_prefix(platform, t);
    crate::place_laws::lemma_one_piece(platform, name);
    let pieces = platform.pieces(name);
    assert(pieces.drop_last() =~= Seq::empty());
    assert(crate::path::proper_names(pieces.drop_last()) =~= Seq::empty());
    assert(name != crate::path::current_dir());
    assert(platform.names(name) =~= seq![name]);
    assert(name != crate::path::parent_dir());
    lemma_join_tidy(platform, t, name);
    assert(t.push(0x5c) + name =~= t + seq![0x5cu8] + name);
}

/// A name leads from a folder to what is in it, and `..` leads back from there, unless there is nothing
/// that was led to.
pub proof fn law_walks(from: Seq<Seq<u8>>, names: Seq<Seq<u8>>, name: Seq<u8>)
    ensures
        crate::path::walked(from, Seq::empty()) == from,
        ({
            let there = crate::path::walked(from, names);
            let next = crate::path::walked(from, names.push(name));
            let up = seq![0x2eu8, 0x2e];
            let here = seq![0x2eu8];
            &&& name != up ==> next == there.push(name)
            &&& name == up && there.len() > 0 && there.last() != up && there.last() != here ==> next
                == there.drop_last()
            &&& name == up && (there.len() == 0 || there.last() == up || there.last() == here)
                ==> next == there
        }),
{
    assert(names.push(name).drop_last() =~= names);
    assert(crate::path::parent_dir() =~= seq![0x2eu8, 0x2e]);
    assert(crate::path::current_dir() =~= seq![0x2eu8]);
}

/// What is joined to a path that Windows takes as it is: from the components of the path, the names of the
/// other are walked through; the prefix is kept, and each component gets a backslash before it. Where none
/// is left, that is the root alone, if there is one. Nothing, joined to it, adds a backslash where there is
/// none at its end.
pub proof fn law_join_verbatim(platform: Platform, s: Seq<u8>, part: Seq<u8>, name: Seq<u8>)
    requires
        platform is Windows,
        s.len() >= 4,
        s.take(4) == seq![0x5cu8, 0x5c, 0x3f, 0x5c],
    ensures
        ({
            let prefix = s.take(platform.prefix_len(s));
            let from = platform.components(true, s, platform.body_start(s));
            let to = crate::path::walked(from, platform.names(part));
            &&& part.len() > 0 && to.len() > 0 ==> platform.join_bytes(s, part) == prefix
                + crate::path::backslashed(to)
            &&& part.len() > 0 && to.len() == 0 && platform.is_rooted(s) ==> platform.join_bytes(
                s,
                part,
            ) == prefix + seq![0x5cu8]
            &&& part.len() > 0 && to.len() == 0 && !platform.is_rooted(s) ==> platform.join_bytes(
                s,
                part,
            ) == prefix
            &&& part.len() == 0 ==> platform.join_bytes(s, part) == if s.last() == 0x5c || s.last()
                == 0x2f {
                s
            } else {
                s + seq![0x5cu8]
            }
            &&& crate::path::backslashed(Seq::empty()) == Seq::<u8>::empty()
            &&& crate::path::backslashed(to.push(name)) == crate::path::backslashed(to) + seq![0x5cu8]
                + name
        }),
{
    let t = s.take(4);
    assert(t[0] == s[0] && t[1] == s[1] && t[2] == s[2] && t[3] == s[3]);
    let from = platform.components(true, s, platform.body_start(s));
    let to = crate::path::walked(from, platform.names(part));
    assert(to.push(name).drop_last() =~= to);
    assert(crate::path::backslashed(to).push(0x5c) + name =~= crate::path::backslashed(to)
        + seq![0x5cu8] + name);
    if part.len() == 0 {
        assert(s + part =~= s);
        assert(s.push(0x5c) + part =~= s + seq![0x5cu8]);
    } else if to.len() == 0 {
        let prefix = s.take(platform.prefix_len(s));
        assert(prefix + Seq::<u8>::empty() =~= prefix);
    }
}

} // verus!
