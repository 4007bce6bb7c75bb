//! Paths below an output folder, as plain bytes.
//!
//! A path is a folder that the caller named, kept as the bytes it came in, and the relative parts
//! that have been joined to it since. Names inside an archive are split and judged here, by the
//! rules of the platform that the path is for.

use vstd::prelude::*;

use crate::text::{lossy_text, same_bytes};

verus! {

/// The platform whose rules a path follows.
#[derive(Clone, Copy, Debug, PartialEq, Eq, Structural)]
pub enum Platform {
    /// Linux and the other systems with case sensitive names.
    Unix,
    /// macOS: paths as on Unix, names that differ only in case denote one file.
    MacOs,
    /// Windows: `\` separates too, drive letters, names that differ only in case denote one file.
    Windows,
}

/// Whether `b` is an ASCII letter.
pub open spec fn is_letter(b: u8) -> bool {
    0x41 <= b <= 0x5a || 0x61 <= b <= 0x7a
}

/// Whether `s` begins with a drive letter and a colon.
pub open spec fn begins_with_drive(s: Seq<u8>) -> bool {
    s.len() >= 2 && is_letter(s[0]) && s[1] == 0x3a
}

/// The name of the folder above: `..`.
pub open spec fn parent_dir() -> Seq<u8> {
    seq![0x2eu8, 0x2eu8]
}

/// The name of the folder itself: `.`.
pub open spec fn current_dir() -> Seq<u8> {
    seq![0x2eu8]
}

/// `names`, each with a `\` before it.
pub open spec fn backslashed(names: Seq<Seq<u8>>) -> Seq<u8>
    decreases names.len(),
{
    if names.len() == 0 {
        Seq::empty()
    } else {
        backslashed(names.drop_last()).push(0x5c) + names.last()
    }
}

/// The components that `names` lead to from the folder with the components `from`: `..` leads back,
/// where there is a name to lead back from.
pub open spec fn walked(from: Seq<Seq<u8>>, names: Seq<Seq<u8>>) -> Seq<Seq<u8>>
    decreases names.len(),
{
    if names.len() == 0 {
        from
    } else {
        let there = walked(from, names.drop_last());
        if names.last() != parent_dir() {
            there.push(names.last())
        } else if there.len() > 0 && there.last() != current_dir() && there.last() != parent_dir() {
            there.drop_last()
        } else {
            there
        }
    }
}

impl Platform {
    /// Whether `b` separates the pieces of a path: `/`, and on Windows `\`.
    pub open spec fn separates(self, b: u8) -> bool {
        b == 0x2f || (self is Windows && b == 0x5c)
    }

    /// The separator that joining writes.
    pub open spec fn main_separator(self) -> u8 {
        if self is Windows {
            0x5c
        } else {
            0x2f
        }
    }

    /// Whether names that differ only in case denote one file.
    pub open spec fn folds_case(self) -> bool {
        !(self is Unix)
    }

    /// The pieces of `s` between its separators, empty ones among them: always one more than
    /// there are separators.
    pub open spec fn pieces(self, s: Seq<u8>) -> Seq<Seq<u8>>
        decreases s.len(),
    {
        if s.len() == 0 {
            seq![Seq::<u8>::empty()]
        } else {
            let before = self.pieces(s.drop_last());
            if self.separates(s.last()) {
                before.push(Seq::<u8>::empty())
            } else {
                before.drop_last().push(before.last().push(s.last()))
            }
        }
    }

    /// The names that a relative path walks through: its pieces without the empty ones and
    /// without `.`.
    pub open spec fn names(self, s: Seq<u8>) -> Seq<Seq<u8>> {
        proper_names(self.pieces(s))
    }

    /// Whether joining `s` to a folder can lead out of that folder: it starts at a root or on a
    /// drive, or one of its pieces is `..`.
    pub open spec fn escapes(self, s: Seq<u8>) -> bool {
        ||| s.len() > 0 && self.separates(s[0])
        ||| self is Windows && begins_with_drive(s)
        ||| self.pieces(s).contains(parent_dir())
    }

    /// The file that the relative path `s` names: the last of its names.
    pub open spec fn file_name(self, s: Seq<u8>) -> Option<Seq<u8>> {
        if self.names(s).len() == 0 {
            None
        } else {
            Some(self.names(s).last())
        }
    }

    /// Whether `s` is a path that Windows takes as it is: it begins with `\\?\`.
    pub open spec fn is_verbatim(self, s: Seq<u8>) -> bool {
        self is Windows && s.len() >= 4 && s[0] == 0x5c && s[1] == 0x5c && s[2] == 0x3f && s[3]
            == 0x5c
    }

    /// Whether `b` divides the components of a path: only `\` where the path is taken as it is.
    pub open spec fn divides(self, verbatim: bool, b: u8) -> bool {
        if verbatim {
            b == 0x5c
        } else {
            self.separates(b)
        }
    }

    /// Where the component of `s` that starts at `from` ends.
    pub open spec fn component_end(self, verbatim: bool, s: Seq<u8>, from: int) -> int
        decreases s.len() - from,
    {
        if from < 0 || from >= s.len() {
            s.len() as int
        } else if self.divides(verbatim, s[from]) {
            from
        } else {
            self.component_end(verbatim, s, from + 1)
        }
    }

    /// How many bytes of `s` are a prefix that only Windows has: a drive, a server and a share, a
    /// device, or what stands for one of these where the path is taken as it is.
    #[verifier::opaque]
    pub open spec fn prefix_len(self, s: Seq<u8>) -> int {
        if !(self is Windows) {
            0
        } else if s.len() < 2 || !self.separates(s[0]) || !self.separates(s[1]) {
            if begins_with_drive(s) {
                2
            } else {
                0
            }
        } else if self.is_verbatim(s) {
            if s.len() >= 8 && s[4] == 0x55 && s[5] == 0x4e && s[6] == 0x43 && self.separates(s[7]) {
                let server = self.component_end(true, s, 8);
                let share = self.component_end(true, s, server + 1);
                if share > server + 1 {
                    share
                } else {
                    server
                }
            } else if s.len() >= 6 && is_letter(s[4]) && s[5] == 0x3a && (s.len() == 6
                || self.separates(s[6])) {
                6
            } else {
                self.component_end(true, s, 4)
            }
        } else if s.len() >= 4 && s[2] == 0x2e && self.separates(s[3]) {
            self.component_end(false, s, 4)
        } else {
            let server = self.component_end(false, s, 2);
            let share = self.component_end(false, s, server + 1);
            if server > 2 && share > server + 1 {
                share
            } else {
                0
            }
        }
    }

    /// Whether `s` has a separator for its root, right behind its prefix.
    pub open spec fn is_rooted(self, s: Seq<u8>) -> bool {
        self.prefix_len(s) < s.len() && self.separates(s[self.prefix_len(s)])
    }

    /// Whether `s` starts, behind nothing or a drive, with the name of the folder itself.
    pub open spec fn is_dotted(self, s: Seq<u8>) -> bool {
        let n = self.prefix_len(s);
        &&& n == 0 || begins_with_drive(s)
        &&& n < s.len() && s[n] == 0x2e
        &&& n + 1 == s.len() || self.separates(s[n + 1])
    }

    /// How many bytes of `s` come before its components: its prefix, and the separator of its root
    /// or the `.` that it starts with.
    pub open spec fn body_start(self, s: Seq<u8>) -> int {
        self.prefix_len(s) + if self.is_rooted(s) || self.is_dotted(s) {
            1int
        } else {
            0int
        }
    }

    /// Where the last component of `s` starts, where those start at `start`.
    pub open spec fn last_start(self, verbatim: bool, s: Seq<u8>, start: int) -> int
        decreases s.len(),
    {
        if s.len() == 0 || s.len() <= start {
            start
        } else if self.divides(verbatim, s.last()) {
            s.len() as int
        } else {
            self.last_start(verbatim, s.drop_last(), start)
        }
    }

    /// `s` without its last component, and without the separator before that.
    pub open spec fn without_last(self, verbatim: bool, s: Seq<u8>, start: int) -> Seq<u8> {
        let last = self.last_start(verbatim, s, start);
        s.take(
            if last > start {
                last - 1
            } else {
                start
            },
        )
    }

    /// `s` without the components at its end that are empty or name the folder itself; the latter
    /// count where the path is taken as it is.
    pub open spec fn trimmed(self, verbatim: bool, s: Seq<u8>, start: int) -> Seq<u8>
        decreases s.len(),
    {
        if start < 0 || s.len() <= start {
            s
        } else {
            proof {
                self.lemma_last_start(verbatim, s, start);
            }
            let last = s.skip(self.last_start(verbatim, s, start));
            if last.len() == 0 || (!verbatim && last == current_dir()) {
                self.trimmed(verbatim, self.without_last(verbatim, s, start), start)
            } else {
                s
            }
        }
    }

    /// The last component starts within the path, and where it is empty there is a separator before
    /// it.
    pub proof fn lemma_last_start(self, verbatim: bool, s: Seq<u8>, start: int)
        requires
            0 <= start < s.len(),
        ensures
            start <= self.last_start(verbatim, s, start) <= s.len(),
            self.last_start(verbatim, s, start) == s.len() ==> self.divides(verbatim, s.last()),
            self.without_last(verbatim, s, start).len() < s.len(),
        decreases s.len(),
    {
        if s.len() - 1 > start {
            self.lemma_last_start(verbatim, s.drop_last(), start);
        } else {
            assert(self.last_start(verbatim, s.drop_last(), start) == start);
        }
    }

    /// The components of `s`, where those start at `start`, in their order.
    pub open spec fn components(self, verbatim: bool, s: Seq<u8>, start: int) -> Seq<Seq<u8>>
        decreases s.len(),
    {
        let t = self.trimmed(verbatim, s, start);
        if start < 0 || t.len() <= start {
            Seq::empty()
        } else {
            proof {
                self.lemma_trimmed(verbatim, s, start);
                self.lemma_last_start(verbatim, t, start);
            }
            self.components(verbatim, self.without_last(verbatim, t, start), start).push(
                t.skip(self.last_start(verbatim, t, start)),
            )
        }
    }

    /// Trimming a path makes it no longer.
    pub proof fn lemma_trimmed(self, verbatim: bool, s: Seq<u8>, start: int)
        ensures
            self.trimmed(verbatim, s, start).len() <= s.len(),
            self.trimmed(verbatim, s, start) == s.take(
                self.trimmed(verbatim, s, start).len() as int,
            ),
            0 <= start <= s.len() ==> start <= self.trimmed(verbatim, s, start).len(),
        decreases s.len(),
    {
        if start < 0 || s.len() <= start {
            assert(s.take(s.len() as int) =~= s);
        } else {
            self.lemma_last_start(verbatim, s, start);
            let last = s.skip(self.last_start(verbatim, s, start));
            if last.len() == 0 || (!verbatim && last == current_dir()) {
                let rest = self.without_last(verbatim, s, start);
                self.lemma_trimmed(verbatim, rest, start);
                let n = self.trimmed(verbatim, s, start).len() as int;
                assert(rest.take(n) =~= s.take(n));
            } else {
                assert(s.take(s.len() as int) =~= s);
            }
        }
    }

    /// The path `s` without what does not name anything at its end.
    pub open spec fn body(self, s: Seq<u8>) -> Seq<u8> {
        self.trimmed(self.is_verbatim(s), s, self.body_start(s))
    }

    /// The name of the file at the path `s`, if that is the path of a file.
    pub open spec fn base_name(self, s: Seq<u8>) -> Option<Seq<u8>> {
        let t = self.body(s);
        let name = t.skip(self.last_start(self.is_verbatim(s), t, self.body_start(s)));
        if t.len() <= self.body_start(s) || name == current_dir() || name == parent_dir() {
            None
        } else {
            Some(name)
        }
    }

    /// The extension of the file at the path `s`.
    pub open spec fn extension(self, s: Seq<u8>) -> Option<Seq<u8>> {
        match self.base_name(s) {
            Some(name) if stem_len(name) < name.len() => Some(name.skip(stem_len(name) + 1)),
            _ => None,
        }
    }

    /// The path `s` cut off right behind the name of its file, less the extension of that name.
    pub open spec fn without_extension(self, s: Seq<u8>) -> Seq<u8> {
        match self.base_name(s) {
            Some(name) => s.take(self.body(s).len() - name.len() + stem_len(name)),
            None => s,
        }
    }

    /// The path `s` cut off before its last component: the folder that it lies in. Roots and
    /// prefixes lie in none.
    pub open spec fn parent(self, s: Seq<u8>) -> Option<Seq<u8>> {
        let verbatim = self.is_verbatim(s);
        let start = self.body_start(s);
        let t = self.body(s);
        if t.len() > start {
            Some(self.trimmed(verbatim, self.without_last(verbatim, t, start), start))
        } else if self.is_dotted(s) {
            Some(s.take(start - 1))
        } else {
            None
        }
    }

    /// What two paths have in common that are the same path, however they are spelled: the prefix,
    /// whether there is a root, whether they start with the folder itself, and the components.
    pub open spec fn path_key(self, s: Seq<u8>) -> PathKeyView {
        PathKeyView {
            prefix: s.take(self.prefix_len(s)),
            rooted: self.is_rooted(s),
            dotted: self.is_dotted(s),
            components: self.components(self.is_verbatim(s), s, self.body_start(s)),
        }
    }

    /// The path with the prefix and the root of `s`, which is taken as it is, and with these
    /// components.
    pub open spec fn respelled(self, s: Seq<u8>, components: Seq<Seq<u8>>) -> Seq<u8> {
        s.take(self.prefix_len(s)) + if components.len() == 0 && self.is_rooted(s) {
            seq![0x5cu8]
        } else {
            backslashed(components)
        }
    }

    /// `s` with the relative path `part` joined to it. A path that is taken as it is is spelled anew:
    /// only `\` divides its components there.
    pub open spec fn join_bytes(self, s: Seq<u8>, part: Seq<u8>) -> Seq<u8> {
        if self.is_verbatim(s) && part.len() > 0 {
            self.respelled(
                s,
                walked(self.components(true, s, self.body_start(s)), self.names(part)),
            )
        } else if s.len() == 0 || self.separates(s.last()) || (self is Windows && s.len() == 2
            && begins_with_drive(s)) {
            s + part
        } else {
            s.push(self.main_separator()) + part
        }
    }

    /// Whether `b` separates the pieces of a path.
    pub fn is_separator(self, b: u8) -> (yes: bool)
        ensures
            yes == self.separates(b),
    {
        b == 0x2f || (self == Platform::Windows && b == 0x5c)
    }

    /// Whether names that differ only in case denote one file.
    pub fn is_case_folding(self) -> (yes: bool)
        ensures
            yes == self.folds_case(),
    {
        self != Platform::Unix
    }

    /// Splits `s` at its separators.
    pub fn split(self, s: &[u8]) -> (out: Vec<Vec<u8>>)
        ensures
            crate::path::views(out@) == self.pieces(s@),
    {
        let mut out: Vec<Vec<u8>> = Vec::new();
        let mut piece: Vec<u8> = Vec::new();
        let mut i: usize = 0;
        assert(s@.take(0) =~= Seq::<u8>::empty());
        assert(views(out@).push(piece@) =~= self.pieces(s@.take(0)));
        while i < s.len()
            invariant
                i <= s@.len(),
                views(out@).push(piece@) == self.pieces(s@.take(i as int)),
            decreases s@.len() - i,
        {
            let b = s[i];
            let ghost before = views(out@).push(piece@);
            assert(s@.take(i + 1).drop_last() =~= s@.take(i as int));
            assert(before.drop_last() =~= views(out@));
            if self.is_separator(b) {
                out.push(piece);
                piece = Vec::new();
                assert(views(out@) =~= before);
                assert(piece@ =~= Seq::<u8>::empty());
            } else {
                piece.push(b);
            }
            i = i + 1;
        }
        assert(s@.take(i as int) =~= s@);
        let ghost before = views(out@).push(piece@);
        out.push(piece);
        assert(views(out@) =~= before);
        out
    }

    /// The names that the relative path `s` walks through.
    pub fn name_list(self, s: &[u8]) -> (out: Vec<Vec<u8>>)
        ensures
            crate::path::views(out@) == self.names(s@),
    {
        let pieces = self.split(s);
        let mut out: Vec<Vec<u8>> = Vec::new();
        let mut i: usize = 0;
        assert(views(out@) =~= proper_names(views(pieces@).take(0)));
        while i < pieces.len()
            invariant
                i <= pieces@.len(),
                views(out@) == proper_names(views(pieces@).take(i as int)),
            decreases pieces@.len() - i,
        {
            let piece = &pieces[i];
            assert(views(pieces@).take(i + 1).drop_last() =~= views(pieces@).take(i as int));
            assert(views(pieces@).take(i + 1).last() == piece@);
            if piece.len() > 0 && !(piece.len() == 1 && piece[0] == 0x2e) {
                assert(piece@ != current_dir());
                let ghost before = views(out@);
                let copy = vstd::slice::slice_to_vec(piece.as_slice());
                out.push(copy);
                assert(views(out@) =~= before.push(piece@));
            } else {
                assert(piece@.len() == 0 || piece@ =~= current_dir());
            }
            i = i + 1;
        }
        assert(views(pieces@).take(i as int) =~= views(pieces@));
        out
    }

    /// Whether joining `s` to a folder can lead out of that folder.
    pub fn is_escaping(self, s: &[u8]) -> (yes: bool)
        ensures
            yes == self.escapes(s@),
    {
        if s.len() > 0 && self.is_separator(s[0]) {
            return true;
        }
        if self == Platform::Windows && is_drive(s) {
            return true;
        }
        let pieces = self.split(s);
        let mut i: usize = 0;
        while i < pieces.len()
            invariant
                i <= pieces@.len(),
                views(pieces@) == self.pieces(s@),
                forall|j: int| 0 <= j < i ==> views(pieces@)[j] != parent_dir(),
            decreases pieces@.len() - i,
        {
            let piece = &pieces[i];
            if piece.len() == 2 && piece[0] == 0x2e && piece[1] == 0x2e {
                assert(views(pieces@)[i as int] =~= parent_dir());
                return true;
            }
            assert(views(pieces@)[i as int] != parent_dir()) by {
                if piece@ == parent_dir() {
                    assert(piece@.len() == 2 && piece@[0] == 0x2e && piece@[1] == 0x2e);
                }
            }
            i = i + 1;
        }
        false
    }

    /// The file that the relative path `s` names.
    pub fn file_name_of(self, s: &[u8]) -> (name: Option<Vec<u8>>)
        ensures
            match name {
                Some(n) => self.file_name(s@) == Some(n@),
                None => self.file_name(s@) is None,
            },
    {
        let mut names = self.name_list(s);
        assert(views(names@).len() == names@.len());
        assert(names@.len() > 0 ==> views(names@).last() == names@.last()@);
        names.pop()
    }

    /// Whether `s` is a path that Windows takes as it is.
    fn begins_verbatim(self, s: &[u8]) -> (yes: bool)
        ensures
            yes == self.is_verbatim(s@),
    {
        self == Platform::Windows && s.len() >= 4 && s[0] == 0x5c && s[1] == 0x5c && s[2] == 0x3f
            && s[3] == 0x5c
    }

    /// Whether `b` divides the components of a path.
    fn is_dividing(self, verbatim: bool, b: u8) -> (yes: bool)
        ensures
            yes == self.divides(verbatim, b),
    {
        if verbatim {
            b == 0x5c
        } else {
            self.is_separator(b)
        }
    }

    /// Where the component of `s` that starts at `from` ends.
    fn find_component_end(self, verbatim: bool, s: &[u8], from: usize) -> (end: usize)
        ensures
            end == self.component_end(verbatim, s@, from as int),
            end <= s@.len(),
            from <= s@.len() ==> from <= end,
    {
        let mut i: usize = from;
        while i < s.len()
            invariant
                from <= i,
                from <= s@.len() ==> i <= s@.len(),
                self.component_end(verbatim, s@, i as int) == self.component_end(
                    verbatim,
                    s@,
                    from as int,
                ),
            decreases s@.len() - i,
        {
            if self.is_dividing(verbatim, s[i]) {
                return i;
            }
            i = i + 1;
        }
        s.len()
    }

    /// Where a share ends whose server ends at `server`; as far as there is none, where the server
    /// does.
    fn find_share_end(self, verbatim: bool, s: &[u8], server: usize) -> (share: usize)
        requires
            server <= s@.len(),
        ensures
            share == if self.component_end(verbatim, s@, server + 1) > server + 1 {
                self.component_end(verbatim, s@, server + 1)
            } else {
                server as int
            },
            server <= share <= s@.len(),
    {
        if server >= s.len() {
            return server;
        }
        let share = self.find_component_end(verbatim, s, server + 1);
        if share > server + 1 {
            share
        } else {
            server
        }
    }

    /// How many bytes of `s` are a prefix that only Windows has.
    fn find_prefix(self, s: &[u8]) -> (n: usize)
        ensures
            n == self.prefix_len(s@),
            n <= s@.len(),
    {
        proof {
            reveal(Platform::prefix_len);
        }
        if self != Platform::Windows {
            return 0;
        }
        if s.len() < 2 || !self.is_separator(s[0]) || !self.is_separator(s[1]) {
            return if is_drive(s) {
                2
            } else {
                0
            };
        }
        if self.begins_verbatim(s) {
            if s.len() >= 8 && s[4] == 0x55 && s[5] == 0x4e && s[6] == 0x43 && self.is_separator(
                s[7],
            ) {
                let server = self.find_component_end(true, s, 8);
                return self.find_share_end(true, s, server);
            }
            if s.len() >= 6 && is_ascii_letter(s[4]) && s[5] == 0x3a && (s.len() == 6
                || self.is_separator(s[6])) {
                return 6;
            }
            return self.find_component_end(true, s, 4);
        }
        if s.len() >= 4 && s[2] == 0x2e && self.is_separator(s[3]) {
            return self.find_component_end(false, s, 4);
        }
        let server = self.find_component_end(false, s, 2);
        let share = self.find_share_end(false, s, server);
        if server > 2 && share > server {
            share
        } else {
            0
        }
    }

    /// How `s` is made up: where its prefix ends, where its components start, whether there is a
    /// root, and whether it starts with the folder itself.
    fn find_shape(self, s: &[u8]) -> (shape: (usize, usize, bool, bool))
        ensures
            shape.0 == self.prefix_len(s@),
            shape.1 == self.body_start(s@),
            shape.2 == self.is_rooted(s@),
            shape.3 == self.is_dotted(s@),
            shape.0 <= shape.1 <= s@.len(),
            shape.3 ==> shape.0 + 1 == shape.1,
    {
        let n = self.find_prefix(s);
        let rooted = n < s.len() && self.is_separator(s[n]);
        let dotted = (n == 0 || is_drive(s)) && n < s.len() && s[n] == 0x2e && (n + 1 == s.len()
            || self.is_separator(s[n + 1]));
        let start = if rooted || dotted {
            n + 1
        } else {
            n
        };
        (n, start, rooted, dotted)
    }

    /// Where the last component of the first `end` bytes of `s` starts.
    fn find_last(self, verbatim: bool, s: &[u8], start: usize, end: usize) -> (last: usize)
        requires
            start < end <= s@.len(),
        ensures
            last == self.last_start(verbatim, s@.take(end as int), start as int),
            start <= last <= end,
            last == end ==> end > start,
    {
        let ghost t = s@.take(end as int);
        let mut i: usize = end;
        assert(t.take(end as int) =~= t);
        while i > start && !self.is_dividing(verbatim, s[i - 1])
            invariant
                start <= i <= end <= s@.len(),
                t == s@.take(end as int),
                self.last_start(verbatim, t.take(i as int), start as int) == self.last_start(
                    verbatim,
                    t,
                    start as int,
                ),
            decreases i,
        {
            assert(t.take(i as int).drop_last() =~= t.take(i - 1));
            i = i - 1;
        }
        i
    }

    /// How many of the first `end` bytes of `s` are left where the components at the end that do not
    /// name anything are cut off.
    fn find_trimmed(self, verbatim: bool, s: &[u8], start: usize, end: usize) -> (n: usize)
        requires
            start <= end <= s@.len(),
        ensures
            start <= n <= end,
            s@.take(n as int) == self.trimmed(verbatim, s@.take(end as int), start as int),
    {
        let mut n: usize = end;
        while n > start
            invariant
                start <= n <= end <= s@.len(),
                self.trimmed(verbatim, s@.take(n as int), start as int) == self.trimmed(
                    verbatim,
                    s@.take(end as int),
                    start as int,
                ),
            decreases n,
        {
            let last = self.find_last(verbatim, s, start, n);
            let ghost t = s@.take(n as int);
            let ghost name = t.skip(last as int);
            proof {
                self.lemma_last_start(verbatim, t, start as int);
                assert(name.len() == n - last);
            }
            if last < n && (verbatim || n - last != 1 || s[last] != 0x2e) {
                assert(verbatim || name != current_dir()) by {
                    if name == current_dir() {
                        assert(name.len() == 1 && name[0] == 0x2e);
                    }
                }
                return n;
            }
            assert(name.len() == 0 || (!verbatim && name =~= current_dir()));
            let ghost rest = self.without_last(verbatim, t, start as int);
            n = if last > start {
                last - 1
            } else {
                start
            };
            assert(rest =~= s@.take(n as int));
        }
        n
    }

    /// Where the name of the file at the path `s` is, if that is the path of a file.
    fn find_base_name(self, s: &[u8]) -> (found: Option<(usize, usize)>)
        ensures
            match found {
                Some((start, end)) => {
                    &&& start < end <= s@.len()
                    &&& self.base_name(s@) == Some(s@.subrange(start as int, end as int))
                    &&& end == self.body(s@).len()
                },
                None => self.base_name(s@) is None,
            },
    {
        let verbatim = self.begins_verbatim(s);
        let (prefix, start, rooted, dotted) = self.find_shape(s);
        assert(s@.take(s@.len() as int) =~= s@);
        let end = self.find_trimmed(verbatim, s, start, s.len());
        if end <= start {
            return None;
        }
        let ghost t = s@.take(end as int);
        let last = self.find_last(verbatim, s, start, end);
        let name = vstd::slice::slice_subrange(s, last, end);
        assert(name@ =~= t.skip(last as int));
        proof {
            self.lemma_trimmed_names(verbatim, s@, start as int);
        }
        let folder = (name.len() == 1 && name[0] == 0x2e) || (name.len() == 2 && name[0] == 0x2e
            && name[1] == 0x2e);
        proof {
            if folder {
                assert(name@ =~= current_dir() || name@ =~= parent_dir());
            } else {
                assert(name@ == current_dir() ==> name@.len() == 1 && name@[0] == 0x2e);
                assert(name@ == parent_dir() ==> name@.len() == 2 && name@[0] == 0x2e && name@[1]
                    == 0x2e);
            }
        }
        if folder {
            None
        } else {
            Some((last, end))
        }
    }

    /// A path that is trimmed ends in a component that is not empty.
    pub proof fn lemma_trimmed_names(self, verbatim: bool, s: Seq<u8>, start: int)
        requires
            0 <= start <= s.len(),
            self.trimmed(verbatim, s, start).len() > start,
        ensures
            self.last_start(verbatim, self.trimmed(verbatim, s, start), start) < self.trimmed(
                verbatim,
                s,
                start,
            ).len(),
        decreases s.len(),
    {
        if s.len() > start {
            self.lemma_last_start(verbatim, s, start);
            let last = s.skip(self.last_start(verbatim, s, start));
            if last.len() == 0 || (!verbatim && last == current_dir()) {
                self.lemma_trimmed_names(
                    verbatim,
                    self.without_last(verbatim, s, start),
                    start,
                );
            }
        }
    }

    /// The extension of the file at the path `s`.
    pub fn extension_of(self, s: &[u8]) -> (ext: Option<Vec<u8>>)
        ensures
            match ext {
                Some(e) => self.extension(s@) == Some(e@),
                None => self.extension(s@) is None,
            },
    {
        let (start, end) = match self.find_base_name(s) {
            Some(found) => found,
            None => return None,
        };
        let name = vstd::slice::slice_subrange(s, start, end);
        let stem = find_stem(name);
        if stem < name.len() {
            let ext = vstd::slice::slice_subrange(name, stem + 1, name.len());
            assert(ext@ =~= name@.skip(stem + 1));
            Some(vstd::slice::slice_to_vec(ext))
        } else {
            None
        }
    }

    /// The path `s` cut off right behind the name of its file, less the extension of that name.
    pub fn strip_extension(self, s: &[u8]) -> (out: Vec<u8>)
        ensures
            out@ == self.without_extension(s@),
    {
        let (start, end) = match self.find_base_name(s) {
            Some(found) => found,
            None => return vstd::slice::slice_to_vec(s),
        };
        let stem = find_stem(vstd::slice::slice_subrange(s, start, end));
        let kept = vstd::slice::slice_subrange(s, 0, start + stem);
        assert(kept@ =~= s@.take(start + stem));
        vstd::slice::slice_to_vec(kept)
    }

    /// The path `s` cut off before its last component: the folder that it lies in.
    pub fn parent_of(self, s: &[u8]) -> (out: Option<Vec<u8>>)
        ensures
            match out {
                Some(folder) => self.parent(s@) == Some(folder@),
                None => self.parent(s@) is None,
            },
    {
        let verbatim = self.begins_verbatim(s);
        let (prefix, start, rooted, dotted) = self.find_shape(s);
        assert(s@.take(s@.len() as int) =~= s@);
        let end = self.find_trimmed(verbatim, s, start, s.len());
        if end > start {
            let last = self.find_last(verbatim, s, start, end);
            let cut = if last > start {
                last - 1
            } else {
                start
            };
            assert(self.without_last(verbatim, s@.take(end as int), start as int) =~= s@.take(
                cut as int,
            ));
            let n = self.find_trimmed(verbatim, s, start, cut);
            let kept = vstd::slice::slice_subrange(s, 0, n);
            assert(kept@ =~= s@.take(n as int));
            Some(vstd::slice::slice_to_vec(kept))
        } else if dotted {
            let kept = vstd::slice::slice_subrange(s, 0, prefix);
            assert(kept@ =~= s@.take(prefix as int));
            Some(vstd::slice::slice_to_vec(kept))
        } else {
            None
        }
    }

    /// What `s` has in common with the paths that are the same.
    pub fn key_of(self, s: &[u8]) -> (key: PathKey)
        ensures
            key@ == self.path_key(s@),
    {
        let verbatim = self.begins_verbatim(s);
        let (prefix, start, rooted, dotted) = self.find_shape(s);
        let ghost whole = self.components(verbatim, s@, start as int);
        let mut components: Vec<Vec<u8>> = Vec::new();
        assert(s@.take(s@.len() as int) =~= s@);
        let mut end: usize = s.len();
        assert(views(components@).reverse() =~= Seq::empty());
        assert(whole + Seq::<Seq<u8>>::empty() =~= whole);
        loop
            invariant
                start <= end <= s@.len(),
                whole == self.components(verbatim, s@.take(end as int), start as int)
                    + views(components@).reverse(),
            ensures
                whole == views(components@).reverse(),
            decreases end,
        {
            let ghost before = s@.take(end as int);
            let trimmed = self.find_trimmed(verbatim, s, start, end);
            if trimmed <= start {
                assert(whole =~= views(components@).reverse());
                break;
            }
            let last = self.find_last(verbatim, s, start, trimmed);
            let name = vstd::slice::slice_subrange(s, last, trimmed);
            let ghost t = s@.take(trimmed as int);
            let ghost found = views(components@);
            proof {
                assert(name@ =~= t.skip(last as int));
                self.lemma_last_start(verbatim, t, start as int);
            }
            components.push(vstd::slice::slice_to_vec(name));
            end = if last > start {
                last - 1
            } else {
                start
            };
            proof {
                assert(self.without_last(verbatim, t, start as int) =~= s@.take(end as int));
                assert(views(components@) =~= found.push(name@));
                let rest = self.components(verbatim, s@.take(end as int), start as int);
                assert(rest.push(name@) + found.reverse() =~= rest + views(components@).reverse());
            }
        }
        let kept = vstd::slice::slice_subrange(s, 0, prefix);
        assert(kept@ =~= s@.take(prefix as int));
        PathKey {
            prefix: vstd::slice::slice_to_vec(kept),
            rooted,
            dotted,
            components: reversed(components),
        }
    }

    /// `s`, which is taken as it is, with the relative path `part` joined to it.
    fn join_verbatim(self, s: &[u8], part: &[u8]) -> (out: Vec<u8>)
        requires
            self.is_verbatim(s@),
        ensures
            out@ == self.respelled(
                s@,
                walked(self.components(true, s@, self.body_start(s@)), self.names(part@)),
            ),
    {
        let key = self.key_of(s);
        let names = self.name_list(part);
        let ghost from = views(key.components@);
        let mut all = key.components;
        let mut i: usize = 0;
        assert(views(names@).take(0) =~= Seq::empty());
        while i < names.len()
            invariant
                i <= names@.len(),
                views(all@) == walked(from, views(names@).take(i as int)),
            decreases names@.len() - i,
        {
            let name = &names[i];
            let ghost before = views(all@);
            assert(views(names@).take(i + 1).drop_last() =~= views(names@).take(i as int));
            assert(views(names@).take(i + 1).last() == name@);
            if !is_parent_dir(name) {
                all.push(vstd::slice::slice_to_vec(name.as_slice()));
                assert(views(all@) =~= before.push(name@));
            } else if all.len() > 0 {
                let last = &all[all.len() - 1];
                assert(before.last() == last@);
                if !is_current_dir(last) && !is_parent_dir(last) {
                    all.pop();
                    assert(views(all@) =~= before.drop_last());
                }
            }
            i = i + 1;
        }
        assert(views(names@).take(i as int) =~= views(names@));
        let mut out = key.prefix;
        if all.len() == 0 && key.rooted {
            out.push(0x5c);
            assert(out@ =~= self.respelled(s@, views(all@)));
            return out;
        }
        let ghost prefix = out@;
        let mut i: usize = 0;
        assert(views(all@).take(0) =~= Seq::empty());
        assert(out@ =~= prefix + backslashed(views(all@).take(0)));
        while i < all.len()
            invariant
                i <= all@.len(),
                out@ == prefix + backslashed(views(all@).take(i as int)),
            decreases all@.len() - i,
        {
            assert(views(all@).take(i + 1).drop_last() =~= views(all@).take(i as int));
            assert(views(all@).take(i + 1).last() == all@[i as int]@);
            out.push(0x5c);
            push_all(&mut out, all[i].as_slice());
            i = i + 1;
            assert(out@ =~= prefix + backslashed(views(all@).take(i as int)));
        }
        assert(views(all@).take(i as int) =~= views(all@));
        out
    }

    /// `s` with the relative path `part` joined to it.
    pub fn join_to(self, s: &[u8], part: &[u8]) -> (out: Vec<u8>)
        ensures
            out@ == self.join_bytes(s@, part@),
    {
        if self.begins_verbatim(s) && part.len() > 0 {
            return self.join_verbatim(s, part);
        }
        let mut out = vstd::slice::slice_to_vec(s);
        if !(s.len() == 0 || self.is_separator(s[s.len() - 1]) || (self == Platform::Windows
            && s.len() == 2 && is_drive(s))) {
            out.push(
                if self == Platform::Windows {
                    0x5c
                } else {
                    0x2f
                },
            );
        }
        push_all(&mut out, part);
        out
    }
}

/// What a [`PathKey`] holds.
#[verifier::ext_equal]
pub struct PathKeyView {
    pub prefix: Seq<u8>,
    pub rooted: bool,
    pub dotted: bool,
    pub components: Seq<Seq<u8>>,
}

/// What paths have in common that are the same path, however they are spelled.
#[derive(Debug)]
pub struct PathKey {
    pub prefix: Vec<u8>,
    pub rooted: bool,
    pub dotted: bool,
    pub components: Vec<Vec<u8>>,
}

impl View for PathKey {
    type V = PathKeyView;

    open spec fn view(&self) -> PathKeyView {
        PathKeyView {
            prefix: self.prefix@,
            rooted: self.rooted,
            dotted: self.dotted,
            components: views(self.components@),
        }
    }
}

impl PathKey {
    /// Whether the two paths are the same.
    pub fn same_as(&self, other: &PathKey) -> (same: bool)
        ensures
            same == (self@ == other@),
    {
        self.rooted == other.rooted && self.dotted == other.dotted && same_bytes(
            self.prefix.as_slice(),
            other.prefix.as_slice(),
        ) && same_list(&self.components, &other.components)
    }
}

/// What an [`OsPath`] holds.
#[verifier::ext_equal]
pub struct PathView {
    pub platform: Platform,
    pub root: Seq<u8>,
    pub parts: Seq<Seq<u8>>,
}

impl PathView {
    /// The path with `part` joined to it.
    pub open spec fn join(self, part: Seq<u8>) -> PathView {
        PathView { parts: self.parts.push(part), ..self }
    }

    /// Whether the path is the empty one.
    pub open spec fn is_empty(self) -> bool {
        self.root.len() == 0 && self.parts.len() == 0
    }

    /// The path as the platform spells it.
    pub open spec fn bytes(self) -> Seq<u8>
        decreases self.parts.len(),
    {
        if self.parts.len() == 0 {
            self.root
        } else {
            self.platform.join_bytes(
                PathView { parts: self.parts.drop_last(), ..self }.bytes(),
                self.parts.last(),
            )
        }
    }

    /// The path as messages show it.
    pub open spec fn shown(self) -> Seq<char> {
        crate::text::lossy(self.bytes())
    }

    /// The names that the path walks through below its root.
    pub open spec fn names(self) -> Seq<Seq<u8>>
        decreases self.parts.len(),
    {
        if self.parts.len() == 0 {
            Seq::empty()
        } else {
            PathView { parts: self.parts.drop_last(), ..self }.names() + self.platform.names(
                self.parts.last(),
            )
        }
    }

    /// The folder that the path lies in: the path cut off before its last component. Roots and
    /// prefixes lie in none.
    pub open spec fn parent(self) -> Option<PathView> {
        match self.platform.parent(self.bytes()) {
            Some(folder) => Some(
                PathView { platform: self.platform, root: folder, parts: Seq::empty() },
            ),
            None => None,
        }
    }

    /// What the path has in common with the paths that are the same.
    pub open spec fn key(self) -> PathKeyView {
        self.platform.path_key(self.bytes())
    }

    /// The path less the extension of the file that it names, where it is a root alone.
    pub open spec fn without_extension(self) -> PathView {
        PathView { root: self.platform.without_extension(self.root), ..self }
    }
}

/// A path: the bytes of a folder that the caller named, and the relative parts that were joined
/// to it.
#[derive(Debug)]
pub struct OsPath {
    pub platform: Platform,
    pub root: Vec<u8>,
    pub parts: Vec<Vec<u8>>,
}

impl View for OsPath {
    type V = PathView;

    open spec fn view(&self) -> PathView {
        PathView { platform: self.platform, root: self.root@, parts: views(self.parts@) }
    }
}

impl OsPath {
    /// The path of the folder `root`.
    pub fn new(platform: Platform, root: Vec<u8>) -> (path: OsPath)
        ensures
            path@ == (PathView { platform, root: root@, parts: Seq::empty() }),
    {
        let path = OsPath { platform, root, parts: Vec::new() };
        assert(path@.parts =~= Seq::empty());
        path
    }

    /// A second copy of the path.
    pub fn copy(&self) -> (path: OsPath)
        ensures
            path@ == self@,
    {
        let root = vstd::slice::slice_to_vec(self.root.as_slice());
        let path = OsPath { platform: self.platform, root, parts: copy_list(&self.parts) };
        path
    }

    /// Whether the path is the empty one.
    pub fn is_empty(&self) -> (yes: bool)
        ensures
            yes == self@.is_empty(),
    {
        self.root.len() == 0 && self.parts.len() == 0
    }

    /// The path with the relative path `part` joined to it.
    pub fn join(&self, part: &[u8]) -> (path: OsPath)
        ensures
            path@ == self@.join(part@),
    {
        let mut path = self.copy();
        path.parts.push(vstd::slice::slice_to_vec(part));
        assert(path@.parts =~= self@.parts.push(part@));
        path
    }

    /// The path as the platform spells it.
    pub fn to_bytes(&self) -> (out: Vec<u8>)
        ensures
            out@ == self@.bytes(),
    {
        let mut out = vstd::slice::slice_to_vec(self.root.as_slice());
        let mut i: usize = 0;
        assert(self@.parts.take(0) =~= Seq::empty());
        while i < self.parts.len()
            invariant
                i <= self.parts@.len(),
                out@ == (PathView { parts: self@.parts.take(i as int), ..self@ }).bytes(),
            decreases self.parts@.len() - i,
        {
            assert(self@.parts.take(i + 1).drop_last() =~= self@.parts.take(i as int));
            out = self.platform.join_to(out.as_slice(), self.parts[i].as_slice());
            i = i + 1;
        }
        assert(self@.parts.take(i as int) =~= self@.parts);
        out
    }

    /// The path as messages show it.
    pub fn display(&self) -> (text: String)
        ensures
            text@ == self@.shown(),
    {
        let bytes = self.to_bytes();
        lossy_text(bytes.as_slice())
    }

    /// The folder that the path lies in.
    pub fn parent(&self) -> (path: Option<OsPath>)
        ensures
            match path {
                Some(p) => self@.parent() == Some(p@),
                None => self@.parent() is None,
            },
    {
        let bytes = self.to_bytes();
        match self.platform.parent_of(bytes.as_slice()) {
            Some(folder) => Some(OsPath::new(self.platform, folder)),
            None => None,
        }
    }

    /// What the path has in common with the paths that are the same.
    pub fn to_key(&self) -> (key: PathKey)
        ensures
            key@ == self@.key(),
    {
        let bytes = self.to_bytes();
        self.platform.key_of(bytes.as_slice())
    }

    /// The path with the extension taken off the file that its root names.
    pub fn strip_extension(&self) -> (path: OsPath)
        ensures
            path@ == self@.without_extension(),
    {
        OsPath {
            platform: self.platform,
            root: self.platform.strip_extension(self.root.as_slice()),
            parts: copy_list(&self.parts),
        }
    }
}

/// Whether `name` is that of the folder above.
fn is_parent_dir(name: &Vec<u8>) -> (yes: bool)
    ensures
        yes == (name@ == parent_dir()),
{
    let yes = name.len() == 2 && name[0] == 0x2e && name[1] == 0x2e;
    assert(yes ==> name@ =~= parent_dir());
    assert(name@ == parent_dir() ==> name@.len() == 2 && name@[0] == 0x2e && name@[1] == 0x2e);
    yes
}

/// Whether `name` is that of the folder itself.
fn is_current_dir(name: &Vec<u8>) -> (yes: bool)
    ensures
        yes == (name@ == current_dir()),
{
    let yes = name.len() == 1 && name[0] == 0x2e;
    assert(yes ==> name@ =~= current_dir());
    assert(name@ == current_dir() ==> name@.len() == 1 && name@[0] == 0x2e);
    yes
}

/// Whether two lists of byte strings are the same.
fn same_list(a: &Vec<Vec<u8>>, b: &Vec<Vec<u8>>) -> (same: bool)
    ensures
        same == (views(a@) == views(b@)),
{
    if a.len() != b.len() {
        assert(views(a@).len() == a@.len() && views(b@).len() == b@.len());
        return false;
    }
    let mut i: usize = 0;
    while i < a.len()
        invariant
            i <= a@.len(),
            a@.len() == b@.len(),
            forall|j: int| 0 <= j < i ==> views(a@)[j] == views(b@)[j],
        decreases a@.len() - i,
    {
        if !same_bytes(a[i].as_slice(), b[i].as_slice()) {
            assert(views(a@)[i as int] != views(b@)[i as int]);
            return false;
        }
        i = i + 1;
    }
    assert(views(a@) =~= views(b@));
    true
}

/// `list` from its end to its start.
fn reversed(list: Vec<Vec<u8>>) -> (out: Vec<Vec<u8>>)
    ensures
        views(out@) == views(list@).reverse(),
{
    let ghost given = views(list@);
    let mut list = list;
    let mut out: Vec<Vec<u8>> = Vec::new();
    assert(views(out@) =~= given.skip(given.len() as int).reverse());
    while list.len() > 0
        invariant
            list@.len() <= given.len(),
            views(list@) == given.take(list@.len() as int),
            views(out@) == given.skip(list@.len() as int).reverse(),
        decreases list@.len(),
    {
        let ghost n = list@.len() as int;
        let ghost before = views(out@);
        let ghost left = views(list@);
        match list.pop() {
            Some(last) => {
                assert(last@ == left[n - 1]);
                out.push(last);
                assert(views(out@) =~= before.push(given[n - 1]));
                assert(views(out@) =~= given.skip(n - 1).reverse());
                assert(views(list@) =~= given.take(n - 1));
            },
            None => {},
        }
    }
    assert(given.skip(0) =~= given);
    out
}

/// A second copy of a list of byte strings.
fn copy_list(list: &Vec<Vec<u8>>) -> (copy: Vec<Vec<u8>>)
    ensures
        views(copy@) == views(list@),
{
    let mut copy: Vec<Vec<u8>> = Vec::new();
    let mut i: usize = 0;
    while i < list.len()
        invariant
            i <= list@.len(),
            copy@.len() == i,
            forall|j: int| 0 <= j < i ==> copy@[j]@ == list@[j]@,
        decreases list@.len() - i,
    {
        copy.push(vstd::slice::slice_to_vec(list[i].as_slice()));
        i = i + 1;
    }
    assert(views(copy@) =~= views(list@));
    copy
}

/// The pieces that name something: not empty, and not the folder itself.
pub open spec fn proper_names(pieces: Seq<Seq<u8>>) -> Seq<Seq<u8>>
    decreases pieces.len(),
{
    if pieces.len() == 0 {
        pieces
    } else {
        let before = proper_names(pieces.drop_last());
        if pieces.last().len() == 0 || pieces.last() == current_dir() {
            before
        } else {
            before.push(pieces.last())
        }
    }
}

/// The byte strings that `list` holds.
pub open spec fn views(list: Seq<Vec<u8>>) -> Seq<Seq<u8>> {
    list.map_values(|v: Vec<u8>| v@)
}

/// Where the last dot of `name` is; -1 if there is none.
pub open spec fn last_dot(name: Seq<u8>) -> int
    decreases name.len(),
{
    if name.len() == 0 || name.last() == 0x2e {
        name.len() - 1
    } else {
        last_dot(name.drop_last())
    }
}

/// How many bytes of a file name come before its extension and the dot: all of them if it has no
/// dot, or none but one at its start.
pub open spec fn stem_len(name: Seq<u8>) -> int {
    if last_dot(name) > 0 {
        last_dot(name)
    } else {
        name.len() as int
    }
}

/// How many bytes of a file name come before its extension and the dot.
fn find_stem(name: &[u8]) -> (n: usize)
    ensures
        n == stem_len(name@),
        n <= name@.len(),
{
    let mut i: usize = name.len();
    assert(name@.take(i as int) =~= name@);
    while i > 0 && name[i - 1] != 0x2e
        invariant
            i <= name@.len(),
            last_dot(name@.take(i as int)) == last_dot(name@),
        decreases i,
    {
        assert(name@.take(i as int).drop_last() =~= name@.take(i - 1));
        i = i - 1;
    }
    if i > 1 {
        i - 1
    } else {
        name.len()
    }
}

/// Whether `s` begins with a drive letter and a colon.
fn is_drive(s: &[u8]) -> (yes: bool)
    ensures
        yes == begins_with_drive(s@),
{
    s.len() >= 2 && is_ascii_letter(s[0]) && s[1] == 0x3a
}

/// Whether `b` is an ASCII letter.
fn is_ascii_letter(b: u8) -> (yes: bool)
    ensures
        yes == is_letter(b),
{
    (0x41 <= b && b <= 0x5a) || (0x61 <= b && b <= 0x7a)
}

/// Appends `more` to `out`.
pub(crate) fn push_all(out: &mut Vec<u8>, more: &[u8])
    ensures
        final(out)@ == old(out)@ + more@,
{
    let mut i: usize = 0;
    assert(out@ =~= old(out)@ + more@.take(0));
    while i < more.len()
        invariant
            i <= more@.len(),
            out@ == old(out)@ + more@.take(i as int),
        decreases more@.len() - i,
    {
        out.push(more[i]);
        assert(more@.take(i + 1) =~= more@.take(i as int).push(more@[i as int]));
        i = i + 1;
        assert(out@ =~= old(out)@ + more@.take(i as int));
    }
    assert(more@.take(i as int) =~= more@);
}

} // verus!
