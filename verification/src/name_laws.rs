//! Which names of entries are good, told by their bytes.

use vstd::prelude::*;
use vstd::string::*;

use crate::index::RawEntry;
use crate::names::NameFault;
use crate::path::{PathView, Platform};

verus! {

/// Whether the byte `b` ends a name within a path: `/`, and on Windows `\`.
pub open spec fn is_break(platform: Platform, b: u8) -> bool {
    b == 0x2f || (platform is Windows && b == 0x5c)
}

/// Whether the bytes of `raw` from `a` up to `b` stand between two breaks, or the ends of `raw`, and
/// hold none.
pub open spec fn is_piece(platform: Platform, raw: Seq<u8>, a: int, b: int) -> bool {
    &&& 0 <= a <= b <= raw.len()
    &&& a == 0 || is_break(platform, raw[a - 1])
    &&& b == raw.len() || is_break(platform, raw[b])
    &&& forall|i: int| a <= i < b ==> !is_break(platform, #[trigger] raw[i])
}

/// Whether `..` stands between two breaks of `raw`, or its ends.
pub open spec fn leads_up(platform: Platform, raw: Seq<u8>) -> bool {
    exists|i: int| is_up_at(platform, raw, i)
}

/// Whether `..` stands at `i`, between two breaks of `raw`, or its ends.
pub open spec fn is_up_at(platform: Platform, raw: Seq<u8>, i: int) -> bool {
    &&& is_piece(platform, raw, i, i + 2)
    &&& raw[i] == 0x2e
    &&& raw[i + 1] == 0x2e
}

/// The last piece starts behind the last break.
proof fn lemma_last_piece(platform: Platform, s: Seq<u8>) -> (start: int)
    ensures
        is_piece(platform, s, start, s.len() as int),
        platform.pieces(s).len() > 0,
        platform.pieces(s).last() == s.skip(start),
    decreases s.len(),
{
    if s.len() == 0 {
        assert(s.skip(0) =~= Seq::<u8>::empty());
        0
    } else {
        let t = s.drop_last();
        let n = s.len() - 1;
        let start = lemma_last_piece(platform, t);
        if is_break(platform, s.last()) {
            assert(s.skip(n + 1) =~= Seq::<u8>::empty());
            n + 1
        } else {
            assert forall|i: int| start <= i < s.len() implies !is_break(
                platform,
                #[trigger] s[i],
            ) by {
                if i < n {
                    assert(s[i] == t[i]);
                }
            }
            if start > 0 {
                assert(s[start - 1] == t[start - 1]);
            }
            assert(t.skip(start).push(s.last()) =~= s.skip(start));
            start
        }
    }
}

/// There is only one piece that goes to the end.
proof fn lemma_same_start(platform: Platform, s: Seq<u8>, a: int, b: int)
    requires
        is_piece(platform, s, a, s.len() as int),
        is_piece(platform, s, b, s.len() as int),
    ensures
        a == b,
{
    if a < b {
        assert(!is_break(platform, s[b - 1]));
    }
    if b < a {
        assert(!is_break(platform, s[a - 1]));
    }
}

/// Whether `..` stands at a place of `s` before its last piece.
spec fn leads_up_before(platform: Platform, s: Seq<u8>) -> bool {
    exists|i: int| is_up_at(platform, s, i) && i + 2 < s.len()
}

/// The pieces before the last one.
proof fn lemma_up_before(platform: Platform, s: Seq<u8>)
    ensures
        platform.pieces(s).len() > 0,
        platform.pieces(s).drop_last().contains(crate::path::parent_dir()) <==> leads_up_before(
            platform,
            s,
        ),
    decreases s.len(),
{
    let up = crate::path::parent_dir();
    if s.len() == 0 {
        assert(platform.pieces(s).drop_last() =~= Seq::empty());
    } else {
        let t = s.drop_last();
        let n = s.len() - 1;
        lemma_up_before(platform, t);
        let start = lemma_last_piece(platform, t);
        let before = platform.pieces(t);
        let all = platform.pieces(s);
        assert forall|i: int| i + 2 < n implies is_up_at(platform, s, i) == is_up_at(
            platform,
            t,
            i,
        ) by {
            lemma_up_in_front(platform, s, i);
        }
        if is_break(platform, s.last()) {
            assert(all.drop_last() =~= before);
            assert(before =~= before.drop_last().push(before.last()));
            lemma_up_last(platform, t, start);
            if leads_up_before(platform, s) {
                let i = choose|i: int| is_up_at(platform, s, i) && i + 2 < s.len();
                if i + 2 == n {
                    lemma_up_at_end(platform, s, i);
                    lemma_same_start(platform, t, start, i);
                    assert(before[before.len() - 1] == up);
                } else {
                    assert(is_up_at(platform, t, i) && i + 2 < t.len());
                    let k = before.drop_last().index_of(up);
                    assert(before[k] == up);
                }
            }
            if before.contains(up) {
                let k = before.index_of(up);
                if k < before.len() - 1 {
                    assert(before.drop_last()[k] == up);
                    let i = choose|i: int| is_up_at(platform, t, i) && i + 2 < t.len();
                    assert(is_up_at(platform, s, i) && i + 2 < s.len());
                } else {
                    assert(before.last() == up);
                    lemma_up_at_end(platform, s, start);
                    assert(is_up_at(platform, s, start) && start + 2 < s.len());
                }
            }
        } else {
            assert(all.drop_last() =~= before.drop_last());
            if leads_up_before(platform, s) {
                let i = choose|i: int| is_up_at(platform, s, i) && i + 2 < s.len();
                assert(i + 2 < n);
                assert(is_up_at(platform, t, i) && i + 2 < t.len());
            }
            if leads_up_before(platform, t) {
                let i = choose|i: int| is_up_at(platform, t, i) && i + 2 < t.len();
                assert(is_up_at(platform, s, i) && i + 2 < s.len());
            }
        }
    }
}

/// What stands before the last byte does so without it too.
proof fn lemma_up_in_front(platform: Platform, s: Seq<u8>, i: int)
    requires
        s.len() > 0,
        i + 2 < s.len() - 1,
    ensures
        is_up_at(platform, s, i) == is_up_at(platform, s.drop_last(), i),
{
    let t = s.drop_last();
    if is_up_at(platform, s, i) {
        assert(t[i] == s[i] && t[i + 1] == s[i + 1] && t[i + 2] == s[i + 2]);
        if i > 0 {
            assert(t[i - 1] == s[i - 1]);
        }
    }
    if is_up_at(platform, t, i) {
        assert(t[i] == s[i] && t[i + 1] == s[i + 1] && t[i + 2] == s[i + 2]);
        if i > 0 {
            assert(t[i - 1] == s[i - 1]);
        }
    }
}

/// What stands right before a break at the end stands at the end without it.
proof fn lemma_up_at_end(platform: Platform, s: Seq<u8>, i: int)
    requires
        s.len() > 0,
        is_break(platform, s.last()),
        i + 2 == s.len() - 1,
    ensures
        is_up_at(platform, s, i) == is_up_at(platform, s.drop_last(), i),
{
    let t = s.drop_last();
    if is_up_at(platform, s, i) {
        assert(t[i] == s[i] && t[i + 1] == s[i + 1]);
        if i > 0 {
            assert(t[i - 1] == s[i - 1]);
        }
    }
    if is_up_at(platform, t, i) {
        assert(t[i] == s[i] && t[i + 1] == s[i + 1]);
        assert(s[i + 2] == s.last());
        if i > 0 {
            assert(t[i - 1] == s[i - 1]);
        }
    }
}

/// The last piece is `..` just if that stands at the end.
proof fn lemma_up_last(platform: Platform, s: Seq<u8>, start: int)
    requires
        is_piece(platform, s, start, s.len() as int),
    ensures
        s.skip(start) == crate::path::parent_dir() <==> is_up_at(platform, s, start) && start + 2
            == s.len(),
{
    let last = s.skip(start);
    let up = crate::path::parent_dir();
    if last == up {
        assert(up.len() == 2 && up[0] == 0x2e && up[1] == 0x2e);
        assert(last[0] == s[start] && last[1] == s[start + 1]);
    }
    if is_up_at(platform, s, start) && start + 2 == s.len() {
        assert(last =~= up);
    }
}

/// A piece is `..` just if that stands between breaks.
proof fn lemma_leads_up(platform: Platform, raw: Seq<u8>)
    ensures
        platform.pieces(raw).contains(crate::path::parent_dir()) <==> leads_up(platform, raw),
{
    let up = crate::path::parent_dir();
    let all = platform.pieces(raw);
    let start = lemma_last_piece(platform, raw);
    lemma_up_before(platform, raw);
    lemma_up_last(platform, raw, start);
    if all.contains(up) {
        let k = all.index_of(up);
        if k < all.len() - 1 {
            assert(all.drop_last()[k] == up);
            let i = choose|i: int| is_up_at(platform, raw, i) && i + 2 < raw.len();
            assert(is_up_at(platform, raw, i));
        } else {
            assert(is_up_at(platform, raw, start));
        }
    }
    if leads_up(platform, raw) {
        let i = choose|i: int| is_up_at(platform, raw, i);
        if i + 2 < raw.len() {
            let k = all.drop_last().index_of(up);
            assert(all[k] == up);
        } else {
            lemma_same_start(platform, raw, start, i);
            assert(all[all.len() - 1] == up);
        }
    }
}

/// Whether joining `raw` to a folder would lead out of it: it starts with a break, on Windows with a
/// letter and a colon, or has `..` in it.
pub open spec fn leads_out(platform: Platform, raw: Seq<u8>) -> bool {
    ||| raw.len() > 0 && is_break(platform, raw[0])
    ||| platform is Windows && raw.len() >= 2 && (0x41 <= raw[0] <= 0x5a || 0x61 <= raw[0] <= 0x7a)
        && raw[1] == 0x3a
    ||| leads_up(platform, raw)
}

/// Whether the bytes of `raw` from `a` up to `b` are its last name: behind it there are only breaks,
/// and `.` between them.
pub open spec fn is_last_name(platform: Platform, raw: Seq<u8>, a: int, b: int) -> bool {
    &&& is_piece(platform, raw, a, b)
    &&& a < b
    &&& !(b == a + 1 && raw[a] == 0x2e)
    &&& forall|i: int|
        b <= i < raw.len() ==> is_break(platform, #[trigger] raw[i]) || (raw[i] == 0x2e
            && is_piece(platform, raw, i, i + 1))
}

/// Whether the `n` bytes of `raw` from `a` on spell `word`, in small letters or capitals.
pub open spec fn spells(raw: Seq<u8>, a: int, n: int, word: Seq<u8>) -> bool {
    &&& n == word.len()
    &&& forall|k: int|
        0 <= k < n ==> #[trigger] word[k] == raw[a + k] || (0x41 <= word[k] <= 0x5a && raw[a + k]
            == word[k] + 0x20)
}

/// Whether the bytes of `raw` from `a` up to its first dot, or up to `b`, are the name of a device.
pub open spec fn is_device_at(raw: Seq<u8>, a: int, b: int) -> bool {
    exists|e: int| is_stem(raw, a, b, e) && is_device_word(raw, a, e - a)
}

/// Whether the first dot of `raw` from `a` up to `b` is at `e`, or there is none and that is `b`.
pub open spec fn is_stem(raw: Seq<u8>, a: int, b: int, e: int) -> bool {
    &&& a <= e <= b
    &&& e == b || raw[e] == 0x2e
    &&& forall|k: int| a <= k < e ==> #[trigger] raw[k] != 0x2e
}

/// Whether the `n` bytes of `raw` from `a` on are the name of a device: `CON`, `PRN`, `AUX`, `NUL`,
/// or `COM` or `LPT` with a digit from 1 to 9.
pub open spec fn is_device_word(raw: Seq<u8>, a: int, n: int) -> bool {
    ||| spells(raw, a, n, seq![0x43u8, 0x4f, 0x4e])
    ||| spells(raw, a, n, seq![0x50u8, 0x52, 0x4e])
    ||| spells(raw, a, n, seq![0x41u8, 0x55, 0x58])
    ||| spells(raw, a, n, seq![0x4eu8, 0x55, 0x4c])
    ||| n == 4 && 0x31 <= raw[a + 3] <= 0x39 && (spells(raw, a, 3, seq![0x43u8, 0x4f, 0x4d])
        || spells(raw, a, 3, seq![0x4cu8, 0x50, 0x54]))
}

/// A break at the end adds no name, nor does a `.` behind one.
proof fn lemma_nothing_added(platform: Platform, t: Seq<u8>, sep: u8)
    requires
        is_break(platform, sep),
    ensures
        platform.names(t.push(sep)) == platform.names(t),
        platform.names(t.push(sep).push(0x2e)) == platform.names(t),
{
    let dot = seq![0x2eu8];
    let none = Seq::<u8>::empty();
    crate::place_laws::lemma_pieces_append(platform, t, sep, none);
    crate::place_laws::lemma_pieces_append(platform, t, sep, dot);
    assert(t.push(sep) + none =~= t.push(sep));
    assert(t.push(sep) + dot =~= t.push(sep).push(0x2e));
    crate::place_laws::lemma_one_piece(platform, none);
    crate::place_laws::lemma_one_piece(platform, dot);
    assert(dot =~= crate::path::current_dir());
    assert((platform.pieces(t) + seq![none]).drop_last() =~= platform.pieces(t));
    assert((platform.pieces(t) + seq![dot]).drop_last() =~= platform.pieces(t));
}

/// The last name of a path is the last one that it walks through.
proof fn lemma_last_name(platform: Platform, raw: Seq<u8>, a: int, b: int)
    requires
        is_last_name(platform, raw, a, b),
    ensures
        platform.names(raw).len() > 0,
        platform.names(raw).last() == raw.subrange(a, b),
    decreases raw.len(),
{
    let n = raw.len() as int;
    let start = lemma_last_piece(platform, raw);
    if b == n {
        lemma_same_start(platform, raw, start, a);
        let name = raw.skip(a);
        assert(name =~= raw.subrange(a, b));
        if name == crate::path::current_dir() {
            assert(name.len() == 1 && name[0] == 0x2e);
        }
    } else {
        let last = raw[n - 1];
        if is_break(platform, last) {
            let t = raw.drop_last();
            assert(t.push(last) =~= raw);
            lemma_nothing_added(platform, t, last);
            lemma_last_name_in_front(platform, raw, a, b, n - 1);
            lemma_last_name(platform, t, a, b);
            assert(t.subrange(a, b) =~= raw.subrange(a, b));
        } else {
            assert(is_piece(platform, raw, n - 1, n));
            if n - 1 == b {
                assert(!is_break(platform, raw[b - 1]));
            }
            let t = raw.take(n - 2);
            assert(t.push(raw[n - 2]).push(0x2e) =~= raw);
            lemma_nothing_added(platform, t, raw[n - 2]);
            lemma_last_name_in_front(platform, raw, a, b, n - 2);
            lemma_last_name(platform, t, a, b);
            assert(t.subrange(a, b) =~= raw.subrange(a, b));
        }
    }
}

/// What comes behind the last name may as well be missing.
proof fn lemma_last_name_in_front(platform: Platform, raw: Seq<u8>, a: int, b: int, n: int)
    requires
        is_last_name(platform, raw, a, b),
        b <= n < raw.len(),
        is_break(platform, raw[n]),
    ensures
        is_last_name(platform, raw.take(n), a, b),
{
    let t = raw.take(n);
    assert forall|i: int| a <= i < b implies !is_break(platform, #[trigger] t[i]) by {
        assert(t[i] == raw[i]);
    }
    if a > 0 {
        assert(t[a - 1] == raw[a - 1]);
    }
    if b < n {
        assert(t[b] == raw[b]);
    }
    assert(t[a] == raw[a]);
    assert forall|i: int| b <= i < t.len() implies is_break(platform, #[trigger] t[i]) || (t[i]
        == 0x2e && is_piece(platform, t, i, i + 1)) by {
        assert(t[i] == raw[i]);
        if !is_break(platform, t[i]) {
            assert(is_piece(platform, raw, i, i + 1));
            if i > 0 {
                assert(t[i - 1] == raw[i - 1]);
            }
            if i + 1 < n {
                assert(t[i + 1] == raw[i + 1]);
            }
        }
    }
}

/// A path that walks through names has a last one.
proof fn lemma_has_last_name(platform: Platform, raw: Seq<u8>) -> (found: (int, int))
    requires
        platform.names(raw).len() > 0,
    ensures
        is_last_name(platform, raw, found.0, found.1),
    decreases raw.len(),
{
    let n = raw.len() as int;
    let start = lemma_last_piece(platform, raw);
    let last = raw.skip(start);
    let pieces = platform.pieces(raw);
    if n == 0 {
        crate::place_laws::lemma_one_piece(platform, raw);
        assert(pieces.drop_last() =~= Seq::empty());
        assert(platform.names(raw) == crate::path::proper_names(pieces.drop_last()));
        (0, 0)
    } else if last.len() == 0 {
        let t = raw.take(n - 1);
        assert(t.push(raw[n - 1]) =~= raw);
        lemma_nothing_added(platform, t, raw[n - 1]);
        let found = lemma_has_last_name(platform, t);
        lemma_last_name_behind(platform, raw, found.0, found.1, n - 1);
        found
    } else if last == crate::path::current_dir() {
        assert(last.len() == 1 && last[0] == 0x2e);
        assert(raw[start] == last[0]);
        if start == 0 {
            crate::place_laws::lemma_one_piece(platform, raw);
            assert(raw =~= last);
            assert(pieces.drop_last() =~= Seq::empty());
            assert(platform.names(raw) == crate::path::proper_names(pieces.drop_last()));
            (0, 0)
        } else {
            let t = raw.take(n - 2);
            assert(t.push(raw[n - 2]).push(0x2e) =~= raw);
            lemma_nothing_added(platform, t, raw[n - 2]);
            let found = lemma_has_last_name(platform, t);
            lemma_last_name_behind(platform, raw, found.0, found.1, n - 2);
            found
        }
    } else {
        if n == start + 1 && raw[start] == 0x2e {
            assert(last =~= crate::path::current_dir());
        }
        (start, n)
    }
}

/// Breaks, and a `.` behind one, may follow the last name.
proof fn lemma_last_name_behind(platform: Platform, raw: Seq<u8>, a: int, b: int, n: int)
    requires
        is_last_name(platform, raw.take(n), a, b),
        0 <= n < raw.len(),
        is_break(platform, raw[n]),
        n + 1 == raw.len() || (n + 2 == raw.len() && raw[n + 1] == 0x2e),
    ensures
        is_last_name(platform, raw, a, b),
{
    let t = raw.take(n);
    assert forall|i: int| a <= i < b implies !is_break(platform, #[trigger] raw[i]) by {
        assert(t[i] == raw[i]);
    }
    if a > 0 {
        assert(t[a - 1] == raw[a - 1]);
    }
    if b < n {
        assert(t[b] == raw[b]);
    }
    assert(t[a] == raw[a]);
    assert forall|i: int| b <= i < raw.len() implies is_break(platform, #[trigger] raw[i]) || (raw[i]
        == 0x2e && is_piece(platform, raw, i, i + 1)) by {
        if i < n {
            assert(t[i] == raw[i]);
            if !is_break(platform, raw[i]) {
                assert(is_piece(platform, t, i, i + 1));
                if i > 0 {
                    assert(t[i - 1] == raw[i - 1]);
                }
                if i + 1 < n {
                    assert(t[i + 1] == raw[i + 1]);
                }
            }
        }
    }
}

/// Where the first dot is.
proof fn lemma_dot_from(name: Seq<u8>, i: int)
    requires
        0 <= i <= name.len(),
    ensures
        is_stem(name, i, name.len() as int, crate::names::dot_from(name, i)),
    decreases name.len() - i,
{
    if i < name.len() && name[i] != 0x2e {
        lemma_dot_from(name, i + 1);
    }
}

/// A word is spelled just if its capitals are those of the bytes.
proof fn lemma_spells(raw: Seq<u8>, a: int, n: int, stem: Seq<u8>, word: Seq<u8>)
    requires
        0 <= a,
        0 <= n,
        a + n <= raw.len(),
        stem == raw.subrange(a, a + n).map_values(|b: u8| crate::names::capital(b)),
        forall|k: int| 0 <= k < word.len() ==> 0x41 <= #[trigger] word[k] <= 0x5a,
    ensures
        stem == word <==> spells(raw, a, n, word),
        n >= word.len() ==> (stem.take(word.len() as int) == word <==> spells(
            raw,
            a,
            word.len() as int,
            word,
        )),
{
    let m = word.len() as int;
    let part = raw.subrange(a, a + n);
    assert forall|k: int| 0 <= k < n implies #[trigger] stem[k] == crate::names::capital(
        raw[a + k],
    ) by {
        assert(part[k] == raw[a + k]);
    }
    if n >= m {
        let head = stem.take(m);
        if head == word {
            assert forall|k: int| 0 <= k < m implies #[trigger] word[k] == raw[a + k] || (0x41
                <= word[k] <= 0x5a && raw[a + k] == word[k] + 0x20) by {
                assert(head[k] == stem[k]);
            }
        }
        if spells(raw, a, m, word) {
            assert forall|k: int| 0 <= k < m implies head[k] == word[k] by {
                assert(word[k] == raw[a + k] || raw[a + k] == word[k] + 0x20);
                assert(head[k] == stem[k]);
            }
            assert(head =~= word);
        }
        if n == m {
            assert(head =~= stem);
        }
    }
}

/// A name is that of a device just if its stem is spelled like one.
proof fn lemma_device(raw: Seq<u8>, a: int, b: int)
    requires
        0 <= a <= b <= raw.len(),
    ensures
        crate::names::is_device(Some(raw.subrange(a, b))) <==> is_device_at(raw, a, b),
{
    let name = raw.subrange(a, b);
    lemma_dot_from(name, 0);
    let n = crate::names::dot_from(name, 0);
    let e = a + n;
    assert forall|k: int| a <= k < b implies #[trigger] raw[k] == name[k - a] by {}
    assert(is_stem(raw, a, b, e)) by {
        if e < b {
            assert(raw[e] == name[n]);
        }
        assert forall|k: int| a <= k < e implies #[trigger] raw[k] != 0x2e by {
            assert(name[k - a] != 0x2e);
        }
    }
    assert forall|other: int| is_stem(raw, a, b, other) implies other == e by {
        if other < e {
            assert(raw[other] != 0x2e);
        }
        if e < other {
            assert(raw[e] != 0x2e);
        }
    }
    let stem = crate::names::capital_stem(name);
    assert(name.take(n) =~= raw.subrange(a, a + n));
    reveal_strlit("CON");
    reveal_strlit("PRN");
    reveal_strlit("AUX");
    reveal_strlit("NUL");
    reveal_strlit("COM");
    reveal_strlit("LPT");
    lemma_word("CON", seq![0x43u8, 0x4f, 0x4e]);
    lemma_word("PRN", seq![0x50u8, 0x52, 0x4e]);
    lemma_word("AUX", seq![0x41u8, 0x55, 0x58]);
    lemma_word("NUL", seq![0x4eu8, 0x55, 0x4c]);
    lemma_word("COM", seq![0x43u8, 0x4f, 0x4d]);
    lemma_word("LPT", seq![0x4cu8, 0x50, 0x54]);
    lemma_spells(raw, a, n, stem, seq![0x43u8, 0x4f, 0x4e]);
    lemma_spells(raw, a, n, stem, seq![0x50u8, 0x52, 0x4e]);
    lemma_spells(raw, a, n, stem, seq![0x41u8, 0x55, 0x58]);
    lemma_spells(raw, a, n, stem, seq![0x4eu8, 0x55, 0x4c]);
    lemma_spells(raw, a, n, stem, seq![0x43u8, 0x4f, 0x4d]);
    lemma_spells(raw, a, n, stem, seq![0x4cu8, 0x50, 0x54]);
    if n == 4 {
        assert(stem[3] == crate::names::capital(raw[a + 3])) by {
            assert(name.take(n)[3] == raw[a + 3]);
        }
    }
    if is_device_at(raw, a, b) {
        let other = choose|e: int| is_stem(raw, a, b, e) && is_device_word(raw, a, e - a);
        assert(other == e);
    }
    if crate::names::is_device(Some(name)) {
        assert(is_stem(raw, a, b, e) && is_device_word(raw, a, e - a));
    }
}

/// The bytes of a word of three capitals.
proof fn lemma_word(text: &str, bytes: Seq<u8>)
    requires
        text@.len() == 3,
        bytes.len() == 3,
        is_ascii(text),
        forall|k: int| 0 <= k < 3 ==> #[trigger] text@[k] as u8 == bytes[k],
    ensures
        text.spec_bytes() == bytes,
{
    assert(text.spec_bytes() =~= bytes);
}

/// What two names have in common if they count as the same: the text, in small letters where names
/// that differ only in case denote one file.
pub open spec fn key_of(platform: Platform, raw: Seq<u8>) -> Seq<char> {
    match platform {
        Platform::Unix => vstd::utf8::decode_utf8(raw),
        _ => crate::text::lowercase(vstd::utf8::decode_utf8(raw)),
    }
}

/// Whether `raw` is the name of a device, where there are such names.
pub open spec fn names_device(platform: Platform, raw: Seq<u8>) -> bool {
    platform is Windows && exists|a: int, b: int| #[trigger]
        is_last_name(platform, raw, a, b) && is_device_at(raw, a, b)
}

/// Whether an entry can go by the name `raw`: it is UTF-8, is not empty, does not lead out of the
/// folder that it is joined to, and is not the name of a device.
pub open spec fn is_good(platform: Platform, raw: Seq<u8>) -> bool {
    &&& vstd::utf8::valid_utf8(raw)
    &&& raw.len() > 0
    &&& !leads_out(platform, raw)
    &&& !names_device(platform, raw)
}

/// What is wrong with a name is told by its bytes, and by the names that are taken: that it is not
/// UTF-8, is empty, leads out of the output folder, is that of a device, or counts as one that is
/// taken; the first of these. There is nothing else that can be wrong with it.
pub proof fn law_name_faults(platform: Platform, raw: Seq<u8>, seen: Set<Seq<char>>)
    ensures
        ({
            let fault = crate::names::fault(platform, raw, seen);
            let is_utf8 = vstd::utf8::valid_utf8(raw);
            &&& fault == Some(NameFault::NotUtf8) <==> !is_utf8
            &&& fault == Some(NameFault::Empty) <==> raw.len() == 0
            &&& fault == Some(NameFault::Escapes) <==> is_utf8 && leads_out(platform, raw)
            &&& fault == Some(NameFault::DeviceName) <==> is_utf8 && !leads_out(platform, raw)
                && names_device(platform, raw)
            &&& fault == Some(NameFault::Duplicate) <==> is_good(platform, raw) && seen.contains(
                key_of(platform, raw),
            )
            &&& fault is None <==> is_good(platform, raw) && !seen.contains(key_of(platform, raw))
            &&& crate::names::own_fault(platform, raw) is None <==> is_good(platform, raw)
        }),
{
    lemma_leads_up(platform, raw);
    assert(platform.escapes(raw) == leads_out(platform, raw));
    if raw.len() == 0 {
        assert forall|i: int| !is_up_at(platform, raw, i) by {}
        assert forall|a: int, b: int| !(#[trigger] is_last_name(platform, raw, a, b)) by {}
    }
    if platform is Windows {
        let found = platform.file_name(raw);
        if platform.names(raw).len() > 0 {
            let (a, b) = lemma_has_last_name(platform, raw);
            lemma_last_name(platform, raw, a, b);
            lemma_device(raw, a, b);
        }
        assert forall|a: int, b: int| #[trigger] is_last_name(platform, raw, a, b) implies found
            == Some(raw.subrange(a, b)) && (crate::names::is_device(found) <==> is_device_at(
            raw,
            a,
            b,
        )) by {
            lemma_last_name(platform, raw, a, b);
            lemma_device(raw, a, b);
        }
    }
}

/// Two names count as the same just if they have the same key.
pub proof fn law_name_keys(platform: Platform, raw: Seq<u8>)
    ensures
        crate::names::name_key(platform, raw) == key_of(platform, raw),
{
}

/// Whether one of the entries before the `i`th has a good name that counts as the same.
pub open spec fn is_repeated(platform: Platform, raw: Seq<RawEntry>, i: int) -> bool {
    exists|j: int|
        0 <= j < i && is_good(platform, (#[trigger] raw[j]).name) && key_of(platform, raw[j].name)
            == key_of(platform, raw[i].name)
}

/// The names that are taken are the good ones.
proof fn lemma_taken_names(platform: Platform, raw: Seq<RawEntry>, key: Seq<char>)
    ensures
        crate::index::taken(platform, raw).contains(key) <==> exists|j: int|
            0 <= j < raw.len() && is_good(platform, (#[trigger] raw[j]).name) && key_of(
                platform,
                raw[j].name,
            ) == key,
    decreases raw.len(),
{
    if raw.len() > 0 {
        let front = raw.drop_last();
        let n = raw.len() - 1;
        let before = crate::index::taken(platform, front);
        lemma_taken_names(platform, front, key);
        lemma_taken_names(platform, front, key_of(platform, raw[n].name));
        law_name_faults(platform, raw[n].name, before);
        if crate::index::taken(platform, raw).contains(key) {
            if before.contains(key) {
                let j = choose|j: int|
                    0 <= j < front.len() && is_good(platform, (#[trigger] front[j]).name) && key_of(
                        platform,
                        front[j].name,
                    ) == key;
                assert(raw[j] == front[j]);
            } else {
                assert(is_good(platform, raw[n].name));
            }
        }
        if exists|j: int|
            0 <= j < raw.len() && is_good(platform, (#[trigger] raw[j]).name) && key_of(
                platform,
                raw[j].name,
            ) == key {
            let j = choose|j: int|
                0 <= j < raw.len() && is_good(platform, (#[trigger] raw[j]).name) && key_of(
                    platform,
                    raw[j].name,
                ) == key;
            if j < n {
                assert(front[j] == raw[j]);
            }
        }
    }
}

/// Whether `name` is `word`, or is so in small letters where names that differ only in case denote
/// one file.
pub open spec fn is_word(platform: Platform, name: Seq<u8>, word: Seq<u8>) -> bool {
    &&& name.len() == word.len()
    &&& forall|k: int|
        0 <= k < name.len() ==> #[trigger] name[k] == word[k] || (!(platform is Unix) && 0x41
            <= name[k] <= 0x5a && word[k] == name[k] + 0x20)
}

/// Whether `raw` walks through the folder `badnames` to the file of the `number`th bad name.
pub open spec fn leads_to_bad_name(platform: Platform, raw: Seq<u8>, number: nat) -> bool {
    let names = platform.names(raw);
    &&& names.len() == 2
    &&& is_word(platform, names[0], seq![0x62u8, 0x61, 0x64, 0x6e, 0x61, 0x6d, 0x65, 0x73])
    &&& is_word(
        platform,
        names[1],
        vstd::utf8::encode_utf8(crate::text::decimal(number)) + seq![0x2eu8, 0x75, 0x6e, 0x6b],
    )
}

/// No piece holds a break.
proof fn lemma_pieces_hold_none(platform: Platform, s: Seq<u8>)
    ensures
        platform.pieces(s).len() > 0,
        forall|k: int, i: int|
            0 <= k < platform.pieces(s).len() && 0 <= i < platform.pieces(s)[k].len()
                ==> !is_break(platform, #[trigger] platform.pieces(s)[k][i]),
    decreases s.len(),
{
    if s.len() > 0 {
        lemma_pieces_hold_none(platform, s.drop_last());
        let before = platform.pieces(s.drop_last());
        let all = platform.pieces(s);
        assert forall|k: int, i: int| 0 <= k < all.len() && 0 <= i < all[k].len() implies !is_break(
            platform,
            #[trigger] all[k][i],
        ) by {
            if k < before.len() - 1 {
                assert(all[k] == before[k]);
                assert(all[k][i] == before[k][i]);
            } else if k == before.len() - 1 {
                if i < before[k].len() {
                    assert(all[k][i] == before[k][i]);
                }
            }
        }
    }
}

/// Nor does a name.
proof fn lemma_names_hold_none(platform: Platform, pieces: Seq<Seq<u8>>)
    requires
        forall|k: int, i: int|
            0 <= k < pieces.len() && 0 <= i < pieces[k].len() ==> !is_break(
                platform,
                #[trigger] pieces[k][i],
            ),
    ensures
        ({
            let names = crate::path::proper_names(pieces);
            forall|k: int, i: int|
                0 <= k < names.len() && 0 <= i < names[k].len() ==> !is_break(
                    platform,
                    #[trigger] names[k][i],
                )
        }),
    decreases pieces.len(),
{
    if pieces.len() > 0 {
        let front = pieces.drop_last();
        assert forall|k: int, i: int|
            0 <= k < front.len() && 0 <= i < front[k].len() implies !is_break(
            platform,
            #[trigger] front[k][i],
        ) by {
            assert(front[k][i] == pieces[k][i]);
        }
        lemma_names_hold_none(platform, front);
        let before = crate::path::proper_names(front);
        let names = crate::path::proper_names(pieces);
        assert forall|k: int, i: int|
            0 <= k < names.len() && 0 <= i < names[k].len() implies !is_break(
            platform,
            #[trigger] names[k][i],
        ) by {
            if k < before.len() {
                assert(names[k][i] == before[k][i]);
            } else {
                assert(names[k][i] == pieces[pieces.len() - 1][i]);
            }
        }
    }
}

/// The names that a path walks through are not empty, and hold no breaks.
pub proof fn lemma_names_are_proper(platform: Platform, s: Seq<u8>)
    ensures
        forall|k: int| 0 <= k < platform.names(s).len() ==> (#[trigger] platform.names(s)[k]).len() > 0,
        forall|k: int, i: int|
            0 <= k < platform.names(s).len() && 0 <= i < platform.names(s)[k].len() ==> !is_break(
                platform,
                #[trigger] platform.names(s)[k][i],
            ),
{
    lemma_pieces_hold_none(platform, s);
    lemma_names_hold_none(platform, platform.pieces(s));
    lemma_names_not_empty(platform.pieces(s));
}

/// No proper name is empty.
proof fn lemma_names_not_empty(pieces: Seq<Seq<u8>>)
    ensures
        forall|k: int|
            0 <= k < crate::path::proper_names(pieces).len() ==> (
            #[trigger] crate::path::proper_names(pieces)[k]).len() > 0,
    decreases pieces.len(),
{
    if pieces.len() > 0 {
        lemma_names_not_empty(pieces.drop_last());
        let before = crate::path::proper_names(pieces.drop_last());
        let names = crate::path::proper_names(pieces);
        assert forall|k: int| 0 <= k < names.len() implies (#[trigger] names[k]).len() > 0 by {
            if k < before.len() {
                assert(names[k] == before[k]);
            }
        }
    }
}

/// Several names one behind the other have a slash between them.
proof fn lemma_joined_has_slash(names: Seq<Seq<u8>>)
    requires
        names.len() >= 2,
    ensures
        exists|i: int|
            0 <= i < crate::names::joined(names).len() && #[trigger] crate::names::joined(names)[i]
                == 0x2f,
{
    let i = crate::names::joined(names.drop_last()).len() as int;
    assert(crate::names::joined(names)[i] == 0x2f);
}

/// The bytes of the place of a bad name.
proof fn lemma_bad_key_bytes(number: nat)
    ensures
        vstd::utf8::encode_utf8(crate::names::bad_key(number)) == seq![
            0x62u8,
            0x61,
            0x64,
            0x6e,
            0x61,
            0x6d,
            0x65,
            0x73,
            0x2f,
        ] + vstd::utf8::encode_utf8(crate::text::decimal(number)) + seq![0x2eu8, 0x75, 0x6e, 0x6b],
        vstd::utf8::valid_utf8(vstd::utf8::encode_utf8(crate::names::bad_key(number))),
        forall|i: int|
            0 <= i < vstd::utf8::encode_utf8(crate::text::decimal(number)).len() ==> 0x30
                <= #[trigger] vstd::utf8::encode_utf8(crate::text::decimal(number))[i] <= 0x39,
        vstd::utf8::encode_utf8(crate::text::decimal(number)).len() > 0,
{
    let text = crate::names::bad_key(number);
    let digits = crate::text::decimal(number);
    let bytes = vstd::utf8::encode_utf8(text);
    reveal_strlit("badnames/");
    reveal_strlit(".unk");
    crate::text::lemma_decimal_digits(number);
    assert forall|i: int| 0 <= i < text.len() implies '\0' <= #[trigger] text[i] <= '\u{7f}' by {
        if i >= 9 && i < 9 + digits.len() {
            assert(text[i] == digits[i - 9]);
        }
    }
    vstd::utf8::is_ascii_chars_encode_utf8(text);
    vstd::utf8::is_ascii_chars_encode_utf8(digits);
    vstd::utf8::encode_utf8_valid_utf8(text);
    let written = vstd::utf8::encode_utf8(digits);
    assert forall|i: int| 0 <= i < written.len() implies 0x30 <= #[trigger] written[i] <= 0x39 by {
        assert(digits[i] as u8 == written[i]);
    }
    let right = seq![0x62u8, 0x61, 0x64, 0x6e, 0x61, 0x6d, 0x65, 0x73, 0x2f] + written + seq![
        0x2eu8,
        0x75,
        0x6e,
        0x6b,
    ];
    assert forall|i: int| 0 <= i < bytes.len() implies bytes[i] == right[i] by {
        assert(text[i] as u8 == bytes[i]);
        if i >= 9 && i < 9 + digits.len() {
            assert(text[i] == digits[i - 9]);
            assert(digits[i - 9] as u8 == written[i - 9]);
        }
    }
    assert(bytes =~= right);
}

/// A name that stands for the place of a bad name walks there.
proof fn lemma_stands_for_bad_name(platform: Platform, raw: Seq<u8>, number: nat)
    requires
        crate::names::place_key(platform, raw) == Some(crate::names::bad_key(number)),
    ensures
        leads_to_bad_name(platform, raw, number),
{
    let names = platform.names(raw);
    let given = crate::names::joined(names);
    let place = crate::names::folded(platform, given);
    vstd::utf8::decode_utf8_encode_utf8(place);
    lemma_bad_key_bytes(number);
    let digits = vstd::utf8::encode_utf8(crate::text::decimal(number));
    let folder = seq![0x62u8, 0x61, 0x64, 0x6e, 0x61, 0x6d, 0x65, 0x73];
    let file = digits + seq![0x2eu8, 0x75, 0x6e, 0x6b];
    assert(place =~= folder.push(0x2f) + file);
    assert(place.len() == given.len());
    assert forall|i: int| 0 <= i < place.len() implies #[trigger] given[i] == place[i] || (!(platform
        is Unix) && 0x41 <= given[i] <= 0x5a && place[i] == given[i] + 0x20) by {
        if !(platform is Unix) {
            assert(place[i] == crate::names::small(given[i]));
        }
    }
    assert forall|i: int| 0 <= i < given.len() implies (#[trigger] given[i] == 0x2f <==> i == 8) by {
        if i < 8 {
            assert(place[i] == folder[i]);
        } else if i > 8 {
            assert(place[i] == file[i - 9]);
            if i - 9 < digits.len() {
                assert(place[i] == digits[i - 9]);
            }
        }
    }
    lemma_pieces_hold_none(platform, raw);
    lemma_names_hold_none(platform, platform.pieces(raw));
    assert(names.len() > 0);
    if names.len() == 1 {
        assert(names[0][8] == given[8]);
    }
    let front = names.drop_last();
    let before = crate::names::joined(front);
    let last = names.last();
    assert(given =~= before.push(0x2f) + last);
    assert(given[before.len() as int] == 0x2f);
    if names.len() >= 3 {
        lemma_joined_has_slash(front);
        let i = choose|i: int| 0 <= i < before.len() && #[trigger] before[i] == 0x2f;
        assert(given[i] == before[i]);
    }
    assert(before == names[0]);
    assert forall|k: int| 0 <= k < names[0].len() implies #[trigger] names[0][k] == folder[k] || (!(
    platform is Unix) && 0x41 <= names[0][k] <= 0x5a && folder[k] == names[0][k] + 0x20) by {
        assert(given[k] == names[0][k]);
        assert(place[k] == folder[k]);
    }
    assert(names[1] == last);
    assert forall|k: int| 0 <= k < names[1].len() implies #[trigger] names[1][k] == file[k] || (!(
    platform is Unix) && 0x41 <= names[1][k] <= 0x5a && file[k] == names[1][k] + 0x20) by {
        assert(given[9 + k] == names[1][k]);
        assert(place[9 + k] == file[k]);
    }
}

/// A place among the bad names was given to an entry whose name is bad.
proof fn lemma_bad_place_was_given(platform: Platform, raw: Seq<RawEntry>, key: Seq<char>)
    requires
        crate::index::places(platform, raw).bad.contains(key),
    ensures
        exists|j: int|
            0 <= j < raw.len() && (#[trigger] crate::index::fault_after(
                platform,
                raw.take(j),
                raw[j],
            )) is Some && key == crate::names::bad_key(
                crate::index::places(platform, raw.take(j)).number(),
            ),
    decreases raw.len(),
{
    let front = raw.drop_last();
    let n = raw.len() - 1;
    assert(raw.take(n) =~= front);
    if crate::index::places(platform, front).bad.contains(key) {
        lemma_bad_place_was_given(platform, front, key);
        let j = choose|j: int|
            0 <= j < front.len() && (#[trigger] crate::index::fault_after(
                platform,
                front.take(j),
                front[j],
            )) is Some && key == crate::names::bad_key(
                crate::index::places(platform, front.take(j)).number(),
            );
        assert(front.take(j) =~= raw.take(j));
        assert(crate::index::fault_after(platform, raw.take(j), raw[j]) is Some);
    } else {
        assert(crate::index::fault_after(platform, raw.take(n), raw[n]) is Some);
    }
}

/// What is wrong with the name of an entry is told by its bytes and those of the names before it. A
/// good name that no good name before it repeats is the entry's own; and then the entry goes by it,
/// unless the name leads to the place that an entry before it was given whose name is bad.
pub proof fn law_entry_names(out: PathView, raw: Seq<RawEntry>, i: int)
    requires
        0 <= i < raw.len(),
    ensures
        ({
            let platform = out.platform;
            let entries = crate::index::placed(out, raw);
            let fault = entries[i].fault;
            let name = raw[i].name;
            let is_utf8 = vstd::utf8::valid_utf8(name);
            let is_new = is_good(platform, name) && !is_repeated(platform, raw, i);
            &&& entries.len() == raw.len()
            &&& entries[i].name == name
            &&& entries[i].size == raw[i].size
            &&& fault == Some(NameFault::NotUtf8) <==> !is_utf8
            &&& fault == Some(NameFault::Empty) <==> name.len() == 0
            &&& fault == Some(NameFault::Escapes) <==> is_utf8 && leads_out(platform, name)
            &&& fault == Some(NameFault::DeviceName) <==> is_utf8 && !leads_out(platform, name)
                && names_device(platform, name)
            &&& fault == Some(NameFault::Duplicate) <==> is_good(platform, name) && is_repeated(
                platform,
                raw,
                i,
            )
            &&& fault is None || fault == Some(NameFault::Occupied) <==> is_new
            &&& fault == Some(NameFault::Occupied) ==> exists|j: int|
                0 <= j < i && (#[trigger] entries[j]).fault is Some && leads_to_bad_name(
                    platform,
                    name,
                    crate::index::places(platform, raw.take(j)).number(),
                )
            &&& fault is None ==> entries[i].path == out.join(name)
            &&& fault is Some ==> entries[i].path == crate::names::bad_place(
                out,
                crate::index::places(platform, raw.take(i)).number(),
            )
        }),
{
    let platform = out.platform;
    let name = raw[i].name;
    let front = raw.take(i);
    let entries = crate::index::placed(out, raw);
    crate::place_laws::lemma_placed_at(out, raw, i);
    law_name_faults(platform, name, crate::index::taken(platform, front));
    lemma_taken_names(platform, front, key_of(platform, name));
    if is_repeated(platform, raw, i) {
        let j = choose|j: int|
            0 <= j < i && is_good(platform, (#[trigger] raw[j]).name) && key_of(
                platform,
                raw[j].name,
            ) == key_of(platform, name);
        assert(front[j] == raw[j]);
    }
    if crate::index::taken(platform, front).contains(key_of(platform, name)) {
        let j = choose|j: int|
            0 <= j < front.len() && is_good(platform, (#[trigger] front[j]).name) && key_of(
                platform,
                front[j].name,
            ) == key_of(platform, name);
        assert(front[j] == raw[j]);
    }
    if entries[i].fault == Some(NameFault::Occupied) {
        let key = crate::names::place_key(platform, name)->0;
        lemma_bad_place_was_given(platform, front, key);
        let j = choose|j: int|
            0 <= j < front.len() && (#[trigger] crate::index::fault_after(
                platform,
                front.take(j),
                front[j],
            )) is Some && key == crate::names::bad_key(
                crate::index::places(platform, front.take(j)).number(),
            );
        assert(front.take(j) =~= raw.take(j));
        crate::place_laws::lemma_placed_at(out, raw, j);
        assert(entries[j].fault is Some);
        lemma_stands_for_bad_name(
            platform,
            name,
            crate::index::places(platform, raw.take(j)).number(),
        );
    }
}

/// How the path of an entry is spelled: the output folder, what joining puts behind it, and the name of
/// the entry where it goes by that; else `badnames`, a separator, its number among the bad names, and
/// `.unk`.
pub proof fn law_entry_paths(out: PathView, raw: Seq<RawEntry>, i: int)
    requires
        0 <= i < raw.len(),
        crate::spelling_laws::is_simple(out.platform, out.bytes()),
    ensures
        ({
            let entry = crate::index::placed(out, raw)[i];
            let folder = out.bytes();
            let sep = if out.platform is Windows {
                seq![0x5cu8]
            } else {
                seq![0x2fu8]
            };
            let front = if folder.len() == 0 || is_break(out.platform, folder.last()) || (
            folder.len() == 2 && crate::spelling_laws::drive_len(out.platform, folder) == 2) {
                folder
            } else {
                folder + sep
            };
            let number = crate::index::places(out.platform, raw.take(i)).number();
            &&& entry.path.platform == out.platform
            &&& entry.path.bytes() == if entry.fault is None {
                front + raw[i].name
            } else {
                front + (seq![0x62u8, 0x61, 0x64, 0x6e, 0x61, 0x6d, 0x65, 0x73] + sep
                    + vstd::utf8::encode_utf8(crate::text::decimal(number)) + seq![
                    0x2eu8,
                    0x75,
                    0x6e,
                    0x6b,
                ])
            }
        }),
{
    let folder = out.bytes();
    let number = crate::index::places(out.platform, raw.take(i)).number();
    crate::place_laws::lemma_placed_at(out, raw, i);
    crate::spelling_laws::law_prefixes(out.platform, folder);
    crate::spelling_laws::law_joined(out.platform, folder, Seq::empty());
    let front = crate::place_laws::front(out);
    assert(front =~= if folder.len() == 0 || is_break(out.platform, folder.last()) || (folder.len()
        == 2 && crate::spelling_laws::drive_len(out.platform, folder) == 2) {
        folder
    } else if out.platform is Windows {
        folder + seq![0x5cu8]
    } else {
        folder + seq![0x2fu8]
    });
    if crate::index::placed(out, raw)[i].fault is None {
        crate::place_laws::lemma_join_spelling(out, raw[i].name);
    } else {
        crate::place_laws::lemma_bad_place_spelling(out, number);
        lemma_bad_spelling(out.platform, number);
    }
}

/// The bytes of how the place of a bad name is spelled.
proof fn lemma_bad_spelling(platform: Platform, number: nat)
    ensures
        crate::place_laws::bad_spelling(platform, number) == seq![
            0x62u8,
            0x61,
            0x64,
            0x6e,
            0x61,
            0x6d,
            0x65,
            0x73,
        ] + (if platform is Windows {
            seq![0x5cu8]
        } else {
            seq![0x2fu8]
        }) + vstd::utf8::encode_utf8(crate::text::decimal(number)) + seq![0x2eu8, 0x75, 0x6e, 0x6b],
{
    let digits = crate::text::decimal(number);
    let text = digits + ".unk"@;
    let written = vstd::utf8::encode_utf8(digits);
    let file = vstd::utf8::encode_utf8(text);
    let folder = "badnames".spec_bytes();
    reveal_strlit("badnames");
    reveal_strlit(".unk");
    assert(is_ascii("badnames"));
    assert(folder =~= seq![0x62u8, 0x61, 0x64, 0x6e, 0x61, 0x6d, 0x65, 0x73]);
    crate::text::lemma_decimal_digits(number);
    crate::place_laws::lemma_bad_file(number);
    vstd::utf8::is_ascii_chars_encode_utf8(text);
    vstd::utf8::is_ascii_chars_encode_utf8(digits);
    assert(file =~= written + seq![0x2eu8, 0x75, 0x6e, 0x6b]) by {
        assert forall|i: int| 0 <= i < file.len() implies file[i] == (written + seq![
            0x2eu8,
            0x75,
            0x6e,
            0x6b,
        ])[i] by {
            assert(text[i] as u8 == file[i]);
            if i < digits.len() {
                assert(text[i] == digits[i]);
                assert(digits[i] as u8 == written[i]);
            }
        }
    }
}

/// The names that a path walks through: one more where a name follows a break, and none where a break or
/// a `.` behind one does. A name alone is the only one.
pub proof fn law_names(platform: Platform, s: Seq<u8>, sep: u8, name: Seq<u8>)
    requires
        is_break(platform, sep),
        crate::spelling_laws::is_name(platform, name),
    ensures
        platform.names(Seq::empty()) == Seq::<Seq<u8>>::empty(),
        platform.names(name) == seq![name],
        platform.names(s + seq![sep] + name) == platform.names(s).push(name),
        platform.names(s + seq![sep]) == platform.names(s),
        platform.names(s + seq![sep, 0x2eu8]) == platform.names(s),
{
    let none = Seq::<u8>::empty();
    lemma_nothing_added(platform, s, sep);
    assert(s.push(sep) =~= s + seq![sep]);
    assert(s.push(sep).push(0x2e) =~= s + seq![sep, 0x2eu8]);
    assert(s.push(sep) + name =~= s + seq![sep] + name);
    crate::place_laws::lemma_one_piece(platform, none);
    crate::place_laws::lemma_one_piece(platform, name);
    crate::place_laws::lemma_pieces_append(platform, s, sep, name);
    assert(name != crate::path::current_dir());
    let alone = platform.pieces(name);
    assert(alone.drop_last() =~= Seq::empty());
    assert(crate::path::proper_names(alone.drop_last()) =~= Seq::empty());
    assert(platform.names(name) =~= seq![name]);
    let empty = platform.pieces(none);
    assert(empty.drop_last() =~= Seq::empty());
    assert(platform.names(none) =~= crate::path::proper_names(empty.drop_last()));
    let all = platform.pieces(s) + seq![name];
    assert(all.drop_last() =~= platform.pieces(s));
}

/// A name that walks to the place of a bad name stands for it.
proof fn lemma_leads_stands_for(platform: Platform, raw: Seq<u8>, number: nat)
    requires
        leads_to_bad_name(platform, raw, number),
    ensures
        crate::names::place_key(platform, raw) == Some(crate::names::bad_key(number)),
{
    let names = platform.names(raw);
    let given = crate::names::joined(names);
    let place = crate::names::folded(platform, given);
    let digits = vstd::utf8::encode_utf8(crate::text::decimal(number));
    let folder = seq![0x62u8, 0x61, 0x64, 0x6e, 0x61, 0x6d, 0x65, 0x73];
    let file = digits + seq![0x2eu8, 0x75, 0x6e, 0x6b];
    let key = vstd::utf8::encode_utf8(crate::names::bad_key(number));
    lemma_bad_key_bytes(number);
    reveal_with_fuel(crate::names::joined, 2);
    assert(names.drop_last() =~= seq![names[0]]);
    assert(given =~= names[0].push(0x2f) + names[1]);
    assert(key =~= folder.push(0x2f) + file);
    assert(given.len() == key.len());
    assert forall|i: int| 0 <= i < key.len() implies place[i] == key[i] by {
        if i < 8 {
            assert(given[i] == names[0][i]);
            assert(key[i] == folder[i]);
            assert(names[0][i] == folder[i] || (!(platform is Unix) && 0x41 <= names[0][i] <= 0x5a
                && folder[i] == names[0][i] + 0x20));
        } else if i > 8 {
            let k = i - 9;
            assert(given[i] == names[1][k]);
            assert(key[i] == file[k]);
            assert(names[1][k] == file[k] || (!(platform is Unix) && 0x41 <= names[1][k] <= 0x5a
                && file[k] == names[1][k] + 0x20));
            if k < digits.len() {
                assert(file[k] == digits[k]);
            }
        }
        if platform is Unix {
            assert(place[i] == given[i]);
        } else {
            assert(place[i] == crate::names::small(given[i]));
        }
    }
    assert(place =~= key);
    vstd::utf8::encode_utf8_decode_utf8(crate::names::bad_key(number));
}

/// The place of an entry whose name is bad is that of no entry that goes by its name, before it or behind
/// it, however that name is spelled.
pub proof fn law_bad_places_are_free(out: PathView, raw: Seq<RawEntry>, i: int, j: int)
    requires
        0 <= i < raw.len(),
        0 <= j < raw.len(),
        crate::index::placed(out, raw)[i].fault is Some,
        crate::index::placed(out, raw)[j].fault is None,
    ensures
        !leads_to_bad_name(
            out.platform,
            raw[j].name,
            crate::index::places(out.platform, raw.take(i)).number(),
        ),
{
    let number = crate::index::places(out.platform, raw.take(i)).number();
    crate::place_laws::law_bad_places_are_kept(out, raw, i, j);
    if leads_to_bad_name(out.platform, raw[j].name, number) {
        lemma_leads_stands_for(out.platform, raw[j].name, number);
    }
}

/// The number of a bad name is the first that is left over: each that is smaller was given to a bad name
/// before it, or is that of a place to which an entry before it goes by its name.
pub proof fn law_bad_numbers(out: PathView, raw: Seq<RawEntry>, i: int, n: nat)
    requires
        0 <= i < raw.len(),
        crate::index::placed(out, raw)[i].fault is Some,
        n < crate::index::places(out.platform, raw.take(i)).number(),
    ensures
        exists|j: int|
            0 <= j < i && ({
                let entry = #[trigger] crate::index::placed(out, raw)[j];
                if entry.fault is Some {
                    n == crate::index::places(out.platform, raw.take(j)).number()
                } else {
                    leads_to_bad_name(out.platform, raw[j].name, n)
                }
            }),
{
    let platform = out.platform;
    let front = raw.take(i);
    let j = lemma_number_is_used(platform, front, n);
    assert(front.take(j) =~= raw.take(j));
    assert(front[j] == raw[j]);
    crate::place_laws::lemma_placed_at(out, raw, j);
}

/// A number that was passed by was used.
proof fn lemma_number_is_used(platform: Platform, raw: Seq<RawEntry>, n: nat) -> (j: int)
    requires
        n < crate::index::places(platform, raw).number(),
    ensures
        0 <= j < raw.len(),
        if crate::index::fault_after(platform, raw.take(j), raw[j]) is Some {
            n == crate::index::places(platform, raw.take(j)).number()
        } else {
            leads_to_bad_name(platform, raw[j].name, n)
        },
    decreases raw.len(),
{
    let now = crate::index::places(platform, raw);
    crate::index::lemma_places(platform, raw);
    crate::index::lemma_free_number_exists(now, now.next);
    assert(crate::index::is_free_number(now.good, now.next, now.number()));
    if n >= now.next {
        assert(now.good.contains(crate::names::bad_key(n)));
        lemma_good_place_was_given(platform, raw, n)
    } else {
        lemma_number_below_next(platform, raw, n)
    }
}

/// A number below the next one to try was used.
proof fn lemma_number_below_next(platform: Platform, raw: Seq<RawEntry>, n: nat) -> (j: int)
    requires
        n < crate::index::places(platform, raw).next,
    ensures
        0 <= j < raw.len(),
        if crate::index::fault_after(platform, raw.take(j), raw[j]) is Some {
            n == crate::index::places(platform, raw.take(j)).number()
        } else {
            leads_to_bad_name(platform, raw[j].name, n)
        },
    decreases raw.len(),
{
    let front = raw.drop_last();
    let last = raw.len() - 1;
    let before = crate::index::places(platform, front);
    assert(raw.take(last) =~= front);
    crate::index::lemma_places(platform, front);
    crate::index::lemma_free_number_exists(before, before.next);
    if n < before.next {
        let j = lemma_number_below_next(platform, front, n);
        assert(front.take(j) =~= raw.take(j));
        j
    } else {
        assert(crate::index::fault_after(platform, front, raw[last]) is Some);
        if n == before.number() {
            last
        } else {
            assert(crate::index::is_free_number(before.good, before.next, before.number()));
            assert(before.good.contains(crate::names::bad_key(n)));
            let j = lemma_good_place_was_given(platform, front, n);
            assert(front.take(j) =~= raw.take(j));
            j
        }
    }
}

/// A place of a bad name that an entry goes to by its name was given to that entry.
proof fn lemma_good_place_was_given(platform: Platform, raw: Seq<RawEntry>, n: nat) -> (j: int)
    requires
        crate::index::places(platform, raw).good.contains(crate::names::bad_key(n)),
    ensures
        0 <= j < raw.len(),
        crate::index::fault_after(platform, raw.take(j), raw[j]) is None,
        leads_to_bad_name(platform, raw[j].name, n),
    decreases raw.len(),
{
    if raw.len() == 0 {
        0
    } else {
        let front = raw.drop_last();
        let last = raw.len() - 1;
        assert(raw.take(last) =~= front);
        if crate::index::places(platform, front).good.contains(crate::names::bad_key(n)) {
            let j = lemma_good_place_was_given(platform, front, n);
            assert(front.take(j) =~= raw.take(j));
            j
        } else {
            lemma_stands_for_bad_name(platform, raw[last].name, n);
            last
        }
    }
}

} // verus!
