//! Borrowed path slices.
//!
//! A [`Path`] wraps a borrowed string and interprets it as a sequence of
//! components separated by `/`.  The component structure of a path string
//! `s` is `comps_of(s@)`; most contracts in this module speak in terms of
//! that sequence and of the exact step functions from [`crate::components`].

use vstd::prelude::*;
use crate::components::{
    Component, CompView, Components, State, comps_of, nb, as_path_s, spec_has_root, lemma_nb,
    lemma_as_path_comps, rem_from,
};
use crate::pathbuf::PathBuf;

verus! {

/// Compare two strings character by character.
pub fn str_eq(a: &str, b: &str) -> (r: bool)
    ensures
        r == (a@ == b@),
{
    let n = a.unicode_len();
    let m = b.unicode_len();
    if n != m {
        return false;
    }
    let mut i: usize = 0;
    while i < n
        invariant
            0 <= i <= n,
            n == a@.len(),
            n == b@.len(),
            forall|j: int| 0 <= j < i ==> a@[j] == b@[j],
        decreases n - i,
    {
        if a.get_char(i) != b.get_char(i) {
            return false;
        }
        i = i + 1;
    }
    proof {
        assert(a@ =~= b@);
    }
    true
}

/// Compare two components.
fn comp_eq(a: &Component, b: &Component) -> (r: bool)
    ensures
        r == (a@ == b@),
{
    match (a, b) {
        (Component::RootDir, Component::RootDir) => true,
        (Component::CurDir, Component::CurDir) => true,
        (Component::ParentDir, Component::ParentDir) => true,
        (Component::Normal(x), Component::Normal(y)) => str_eq(x, y),
        _ => false,
    }
}

/// What the `parent` of a path string is: the string before the last
/// component, with dangling separators removed; none if the path is empty
/// or consists of the root alone.
pub open spec fn spec_parent(s: Seq<char>) -> Option<Seq<char>> {
    let (ns, rc, nback) = nb(s, true);
    match rc {
        None => None,
        Some(CompView::Root) => None,
        Some(_) => Some(as_path_s(ns, State::StartDir, nback)),
    }
}

/// The last component of a path, when it is a normal one.
pub open spec fn spec_file_name(s: Seq<char>) -> Option<Seq<char>> {
    if comps_of(s).len() == 0 {
        None
    } else {
        match comps_of(s).last() {
            CompView::Normal(n) => Some(n),
            _ => None,
        }
    }
}

/// Index of the last `.` in a file name, or `-1` if there is none.
pub open spec fn last_dot(s: Seq<char>) -> int
    decreases s.len(),
{
    if s.len() == 0 {
        -1
    } else if s[s.len() - 1] == '.' {
        s.len() - 1
    } else {
        last_dot(s.drop_last())
    }
}

proof fn lemma_last_dot(s: Seq<char>)
    ensures
        -1 <= last_dot(s) < s.len(),
        forall|i: int| last_dot(s) < i < s.len() ==> s[i] != '.',
        last_dot(s) >= 0 ==> s[last_dot(s)] == '.',
    decreases s.len(),
{
    if s.len() == 0 {
    } else if s[s.len() - 1] == '.' {
    } else {
        lemma_last_dot(s.drop_last());
        assert forall|i: int| last_dot(s) < i < s.len() implies s[i] != '.' by {
            if i < s.len() - 1 {
                assert(s.drop_last()[i] == s[i]);
            }
        }
        if last_dot(s) >= 0 {
            assert(s.drop_last()[last_dot(s)] == s[last_dot(s)]);
        }
    }
}

proof fn lemma_last_dot_unique(s: Seq<char>, i: int)
    requires
        -1 <= i < s.len(),
        forall|j: int| i < j < s.len() ==> s[j] != '.',
        i >= 0 ==> s[i] == '.',
    ensures
        last_dot(s) == i,
{
    lemma_last_dot(s);
}

/// How a file name splits at its last `.`: the part before it (if the dot
/// is not the leading character) and the part after it.
pub open spec fn spec_rsplit_dot(f: Seq<char>) -> (Option<Seq<char>>, Option<Seq<char>>) {
    if f == seq!['.', '.'] {
        (Some(f), None)
    } else {
        let k = last_dot(f);
        if k < 0 {
            (None, Some(f))
        } else if k == 0 {
            (Some(f), None)
        } else {
            (Some(f.take(k)), Some(f.skip(k + 1)))
        }
    }
}

/// The stem of a file name: everything before the extension, or the whole
/// name when there is no extension.
pub open spec fn spec_stem_of(f: Seq<char>) -> Seq<char> {
    let (before, after) = spec_rsplit_dot(f);
    match before {
        Some(b) => b,
        None => match after {
            Some(a) => a,
            None => f,
        },
    }
}

/// The extension of a file name, if any.
pub open spec fn spec_ext_of(f: Seq<char>) -> Option<Seq<char>> {
    let (before, after) = spec_rsplit_dot(f);
    match before {
        Some(_) => after,
        None => None,
    }
}

/// The stem of the last component of a path, if that component is normal.
pub open spec fn spec_file_stem(s: Seq<char>) -> Option<Seq<char>> {
    match spec_file_name(s) {
        None => None,
        Some(f) => Some(spec_stem_of(f)),
    }
}

/// The extension of the last component of a path, if any.
pub open spec fn spec_extension(s: Seq<char>) -> Option<Seq<char>> {
    match spec_file_name(s) {
        None => None,
        Some(f) => spec_ext_of(f),
    }
}

/// Index of the first `.` at position 1 or later, or the length when
/// there is none; a leading dot never splits.
pub open spec fn first_dot1(s: Seq<char>) -> int
    decreases s.len(),
{
    if s.len() <= 1 {
        s.len() as int
    } else if s[1] == '.' {
        1
    } else {
        1 + first_dot1(s.drop_first())
    }
}

proof fn lemma_first_dot1(s: Seq<char>)
    ensures
        1 <= first_dot1(s) <= s.len() || (s.len() == 0 && first_dot1(s) == 0),
        forall|i: int| 1 <= i < first_dot1(s) ==> s[i] != '.',
        first_dot1(s) < s.len() ==> s[first_dot1(s)] == '.',
    decreases s.len(),
{
    if s.len() <= 1 {
    } else if s[1] == '.' {
    } else {
        lemma_first_dot1(s.drop_first());
        assert forall|i: int| 1 <= i < first_dot1(s) implies s[i] != '.' by {
            if i >= 2 {
                assert(s.drop_first()[i - 1] == s[i]);
            } else {
                assert(i == 1);
            }
        }
        if first_dot1(s) < s.len() {
            assert(s.drop_first()[first_dot1(s) - 1] == s[first_dot1(s)]);
        }
    }
}

proof fn lemma_first_dot1_unique(s: Seq<char>, i: int)
    requires
        1 <= i <= s.len(),
        forall|j: int| 1 <= j < i ==> s[j] != '.',
        i < s.len() ==> s[i] == '.',
    ensures
        first_dot1(s) == i,
{
    lemma_first_dot1(s);
}

/// The file name up to its first dot past the leading character; a name
/// of two dots stays whole.
pub open spec fn spec_prefix_of(f: Seq<char>) -> Seq<char> {
    if f == seq!['.', '.'] {
        f
    } else {
        f.take(first_dot1(f))
    }
}

/// The basic workhorse for splitting a file name into stem and extension,
/// searching for the dot from the right.
pub fn rsplit_file_at_dot<'a>(file: &'a str) -> (r: (Option<&'a str>, Option<&'a str>))
    ensures
        ({
            let (b, a) = spec_rsplit_dot(file@);
            &&& (match (r.0, b) {
                (Some(x), Some(y)) => x@ == y,
                (None, None) => true,
                _ => false,
            })
            &&& (match (r.1, a) {
                (Some(x), Some(y)) => x@ == y,
                (None, None) => true,
                _ => false,
            })
        }),
{
    let n = file.unicode_len();
    if n == 2 && file.get_char(0) == '.' && file.get_char(1) == '.' {
        proof {
            assert(file@ =~= seq!['.', '.']);
        }
        return (Some(file), None);
    }
    proof {
        assert(file@ == seq!['.', '.'] ==> file@.len() == 2 && file@[0] == '.' && file@[1] == '.');
    }
    // search for the last dot
    let mut i = n;
    while i > 0
        invariant
            0 <= i <= n,
            n == file@.len(),
            file@ != seq!['.', '.'],
            forall|j: int| i <= j < n ==> file@[j] != '.',
        decreases i,
    {
        i = i - 1;
        if file.get_char(i) == '.' {
            proof {
                lemma_last_dot_unique(file@, i as int);
            }
            if i == 0 {
                return (Some(file), None);
            }
            let before = file.substring_char(0, i);
            let after = file.substring_char(i + 1, n);
            proof {
                assert(before@ =~= file@.take(i as int));
                assert(after@ =~= file@.skip(i + 1));
            }
            return (Some(before), Some(after));
        }
    }
    proof {
        lemma_last_dot_unique(file@, -1);
    }
    (None, Some(file))
}

/// Split a file name at the first dot after its leading character.
pub fn split_file_at_dot<'a>(file: &'a str) -> (r: (&'a str, Option<&'a str>))
    ensures
        r.0@ == spec_prefix_of(file@),
        ({
            let f = file@;
            if f == seq!['.', '.'] || first_dot1(f) >= f.len() {
                r.1 is None
            } else {
                r.1 matches Some(a) && a@ == f.skip(first_dot1(f) + 1)
            }
        }),
{
    let n = file.unicode_len();
    if n == 2 && file.get_char(0) == '.' && file.get_char(1) == '.' {
        proof {
            assert(file@ =~= seq!['.', '.']);
        }
        return (file, None);
    }
    proof {
        assert(file@ == seq!['.', '.'] ==> file@.len() == 2 && file@[0] == '.' && file@[1] == '.');
    }
    let mut i: usize = 1;
    while i < n
        invariant
            1 <= i <= n || (n == 0 && i == 1),
            n == file@.len(),
            file@ != seq!['.', '.'],
            forall|j: int| 1 <= j < i ==> file@[j] != '.',
        decreases n - i,
    {
        if file.get_char(i) == '.' {
            let before = file.substring_char(0, i);
            let after = file.substring_char(i + 1, n);
            proof {
                lemma_first_dot1_unique(file@, i as int);
                assert(before@ =~= file@.take(i as int));
                assert(after@ =~= file@.skip(i + 1));
            }
            return (before, Some(after));
        }
        i = i + 1;
    }
    proof {
        if file@.len() > 0 {
            lemma_first_dot1_unique(file@, file@.len() as int);
        }
        assert(file@.take(file@.len() as int) =~= file@);
    }
    (file, None)
}

/// Returned by [`Path::strip_prefix`] when the base is not a prefix of the
/// path.
#[derive(Debug, Copy, Clone, Eq, PartialEq, Structural)]
pub struct StripPrefixError;

/// Advance `iter` past `prefix` while the two yield equal components;
/// `None` if `prefix` is not a component-wise prefix of `iter`.
fn iter_after<'a, 'b>(iter: Components<'a>, prefix: Components<'b>) -> (r: Option<Components<'a>>)
    requires
        iter.wf(),
        prefix.wf(),
        iter.front != State::Done,
        iter.back == State::Body,
    ensures
        ({
            let vi = iter.remaining();
            let vp = prefix.remaining();
            match r {
                Some(rest) => {
                    &&& vp.is_prefix_of(vi)
                    &&& rest.wf()
                    &&& rest.front != State::Done
                    &&& rest.back == State::Body
                    &&& rest.remaining() == vi.skip(vp.len() as int)
                },
                None => !vp.is_prefix_of(vi),
            }
        }),
{
    let mut it = iter;
    let mut pf = prefix;
    let ghost vi0 = iter.remaining();
    let ghost vp0 = prefix.remaining();
    let ghost mut m: int = 0;
    loop
        invariant
            vi0 == iter.remaining(),
            vp0 == prefix.remaining(),
            it.wf(),
            pf.wf(),
            it.front != State::Done,
            it.back == State::Body,
            0 <= m <= vp0.len(),
            m <= vi0.len(),
            it.remaining() == vi0.skip(m),
            pf.remaining() == vp0.skip(m),
            forall|j: int| 0 <= j < m ==> vi0[j] == vp0[j],
        decreases vp0.len() - m,
    {
        let mut it_next = Components {
            path: it.path,
            has_physical_root: it.has_physical_root,
            front: it.front,
            back: it.back,
        };
        let x = it_next.next();
        let y = pf.next();
        match (x, y) {
            (Some(xc), Some(yc)) => {
                if comp_eq(&xc, &yc) {
                    it = it_next;
                    proof {
                        m = m + 1;
                        assert(vi0.skip(m) =~= vi0.skip(m - 1).drop_first());
                        assert(vp0.skip(m) =~= vp0.skip(m - 1).drop_first());
                    }
                } else {
                    proof {
                        assert(vi0[m] != vp0[m]);
                        if vp0.is_prefix_of(vi0) {
                            assert(vp0[m] == vi0.take(vp0.len() as int)[m]);
                        }
                    }
                    return None;
                }
            },
            (None, Some(_)) => {
                proof {
                    assert(vi0.len() == m);
                    assert(vp0.len() > m);
                }
                return None;
            },
            (_, None) => {
                proof {
                    assert(m == vp0.len());
                    assert(vp0 =~= vi0.take(vp0.len() as int));
                }
                return Some(it);
            },
        }
    }
}

/// A borrowed path: a string slice read as a `/`-separated path.
#[derive(Clone, Copy)]
pub struct Path<'a> {
    pub inner: &'a str,
}

impl<'a> View for Path<'a> {
    type V = Seq<char>;

    open spec fn view(&self) -> Seq<char> {
        self.inner@
    }
}

impl<'a> Path<'a> {
    pub fn new(s: &'a str) -> (r: Path<'a>)
        ensures
            r@ == s@,
    {
        Path { inner: s }
    }

    pub fn as_str(&self) -> (r: &'a str)
        ensures
            r@ == self@,
    {
        self.inner
    }

    pub fn to_path_buf(&self) -> (r: PathBuf)
        ensures
            r@ == self@,
    {
        PathBuf::from(self.inner)
    }

    pub fn components(&self) -> (r: Components<'a>)
        ensures
            r.wf(),
            r.path_view() == self@,
            r.remaining() == comps_of(self@),
            r.is_fresh(),
            r.has_physical_root == spec_has_root(self@),
    {
        Components::new(self)
    }

    pub fn has_root(&self) -> (r: bool)
        ensures
            r == spec_has_root(self@),
    {
        self.components().has_root()
    }

    pub fn is_absolute(&self) -> (r: bool)
        ensures
            r == spec_has_root(self@),
    {
        self.has_root()
    }

    pub fn is_relative(&self) -> (r: bool)
        ensures
            r == !spec_has_root(self@),
    {
        !self.is_absolute()
    }

    /// The path without its final component.  The result is a prefix of
    /// this path whose components are exactly all but the last one.
    pub fn parent(&self) -> (r: Option<Path<'a>>)
        ensures
            ({
                let v = comps_of(self@);
                match r {
                    None => (v.len() == 0 || v.last() == CompView::Root) && spec_parent(self@)
                        is None,
                    Some(q) => {
                        &&& v.len() > 0 && v.last() != CompView::Root
                        &&& spec_parent(self@) == Some(q@)
                        &&& comps_of(q@) == v.drop_last()
                        &&& q@.len() < self@.len()
                        &&& q@ == self@.take(q@.len() as int)
                    },
                }
            }),
    {
        let mut comps = self.components();
        proof {
            lemma_nb(self@, true);
        }
        let comp = comps.next_back();
        match comp {
            None => None,
            Some(Component::RootDir) => None,
            Some(_) => {
                let q = comps.as_path();
                proof {
                    let (ns, rc, nback) = nb(self@, true);
                    if nback == State::Body {
                        lemma_as_path_comps(ns, State::StartDir, State::Body);
                        crate::components::lemma_trim_right(ns, true);
                        assert forall|i: int| 0 <= i < q@.len() implies q@[i] == self@[i] by {
                            assert(q@[i] == ns[i]);
                        }
                        assert(q@ =~= self@.take(q@.len() as int));
                    } else {
                        // the back end consumed a lone leading marker, so
                        // nothing of the path remains
                        assert(ns.len() == 0);
                        assert(comps_of(q@) =~= Seq::<CompView>::empty());
                        assert(q@ =~= self@.take(0));
                        assert(comps_of(self@).drop_last() =~= Seq::<CompView>::empty());
                    }
                }
                Some(q)
            },
        }
    }

    pub fn ancestors(&self) -> (r: crate::ancestors::Ancestors<'a>)
        ensures
            r.next matches Some(p) && p@ == self@,
    {
        crate::ancestors::Ancestors::new(*self)
    }

    /// The final component of the path, if it is a normal file or
    /// directory name.
    pub fn file_name(&self) -> (r: Option<&'a str>)
        ensures
            ({
                match r {
                    Some(name) => spec_file_name(self@) == Some(name@),
                    None => spec_file_name(self@) is None,
                }
            }),
    {
        let mut comps = self.components();
        match comps.next_back() {
            Some(Component::Normal(s)) => Some(s),
            _ => None,
        }
    }

    /// The file name without its extension.
    pub fn file_stem(&self) -> (r: Option<&'a str>)
        ensures
            ({
                match r {
                    Some(st) => spec_file_stem(self@) == Some(st@),
                    None => spec_file_stem(self@) is None,
                }
            }),
    {
        match self.file_name() {
            None => None,
            Some(name) => {
                let (before, after) = rsplit_file_at_dot(name);
                match before {
                    Some(b) => Some(b),
                    None => after,
                }
            },
        }
    }

    /// The extension of the file name, if any.
    pub fn extension(&self) -> (r: Option<&'a str>)
        ensures
            ({
                match r {
                    Some(e) => spec_extension(self@) == Some(e@),
                    None => spec_extension(self@) is None,
                }
            }),
    {
        match self.file_name() {
            None => None,
            Some(name) => {
                let (before, after) = rsplit_file_at_dot(name);
                match before {
                    Some(_) => after,
                    None => None,
                }
            },
        }
    }

    /// The remainder of this path after removing the components of `base`.
    pub fn strip_prefix(&self, base: Path<'_>) -> (r: Result<Path<'a>, StripPrefixError>)
        ensures
            ({
                let v = comps_of(self@);
                let w = comps_of(base@);
                match r {
                    Ok(q) => w.is_prefix_of(v) && comps_of(q@) == v.skip(w.len() as int),
                    Err(_) => !w.is_prefix_of(v),
                }
            }),
    {
        match iter_after(self.components(), base.components()) {
            Some(rest) => {
                let q = rest.as_path();
                proof {
                    lemma_as_path_comps(rest.path_view(), rest.front, rest.back);
                }
                Ok(q)
            },
            None => Err(StripPrefixError),
        }
    }

    /// Does `base` name an initial sequence of this path's components?
    pub fn starts_with(&self, base: Path<'_>) -> (r: bool)
        ensures
            r == comps_of(base@).is_prefix_of(comps_of(self@)),
    {
        match iter_after(self.components(), base.components()) {
            Some(_) => true,
            None => false,
        }
    }

    /// Does `child` name a final sequence of this path's components?
    pub fn ends_with(&self, child: Path<'_>) -> (r: bool)
        ensures
            r == comps_of(child@).is_suffix_of(comps_of(self@)),
    {
        let mut it = self.components();
        let mut c = child.components();
        let ghost vi0 = comps_of(self@);
        let ghost vc0 = comps_of(child@);
        let ghost mut m: int = 0;
        loop
            invariant
                vi0 == comps_of(self@),
                vc0 == comps_of(child@),
                it.wf(),
                c.wf(),
                0 <= m <= vc0.len(),
                m <= vi0.len(),
                it.remaining() == vi0.take(vi0.len() - m),
                c.remaining() == vc0.take(vc0.len() - m),
                forall|j: int|
                    0 <= j < m ==> #[trigger] vi0[vi0.len() - 1 - j] == vc0[vc0.len() - 1 - j],
            decreases vc0.len() - m,
        {
            let y = c.next_back();
            match y {
                None => {
                    proof {
                        assert(m == vc0.len());
                        let ll = vi0.len();
                        let cc = vc0.len();
                        assert forall|i: int| 0 <= i < cc implies vc0[i] == vi0.skip(ll - cc)[i] by {
                            assert(vi0[ll - 1 - (cc - 1 - i)] == vc0[cc - 1 - (cc - 1 - i)]);
                        }
                        assert(vc0 =~= vi0.skip(ll - cc));
                    }
                    return true;
                },
                Some(yc) => {
                    let x = it.next_back();
                    match x {
                        None => {
                            proof {
                                assert(vi0.len() == m);
                                assert(vc0.len() > m);
                            }
                            return false;
                        },
                        Some(xc) => {
                            if comp_eq(&xc, &yc) {
                                proof {
                                    m = m + 1;
                                    assert(it.remaining() =~= vi0.take(vi0.len() - m));
                                    assert(c.remaining() =~= vc0.take(vc0.len() - m));
                                }
                            } else {
                                proof {
                                    assert(vi0[vi0.len() - 1 - m] != vc0[vc0.len() - 1 - m]);
                                    if vc0.is_suffix_of(vi0) {
                                        assert(vc0[vc0.len() - 1 - m] == vi0.skip(
                                            vi0.len() - vc0.len(),
                                        )[vc0.len() - 1 - m]);
                                    }
                                }
                                return false;
                            }
                        },
                    }
                },
            }
        }
    }

    /// Append `path` to this one, yielding an owned path.
    pub fn join(&self, path: Path<'_>) -> (r: PathBuf)
        ensures
            r@ == crate::pathbuf::spec_push(self@, path@),
    {
        let mut buf = self.to_path_buf();
        buf.push(path);
        buf
    }

    /// This path with its file name replaced.
    pub fn with_file_name(&self, file_name: &str) -> (r: PathBuf)
        ensures
            r@ == crate::pathbuf::spec_set_file_name(self@, file_name@),
    {
        let mut buf = self.to_path_buf();
        buf.set_file_name(file_name);
        buf
    }

    /// This path with its extension replaced.
    pub fn with_extension(&self, extension: &str) -> (r: PathBuf)
        ensures
            r@ == crate::pathbuf::spec_set_extension(self@, extension@).1,
    {
        let mut buf = self.to_path_buf();
        let _ = buf.set_extension(extension);
        buf
    }

    /// Everything in the file name before its first dot.
    pub fn file_prefix(&self) -> (r: Option<&'a str>)
        ensures
            ({
                match spec_file_name(self@) {
                    None => r is None,
                    Some(f) => r matches Some(p) && p@ == spec_prefix_of(f),
                }
            }),
    {
        match self.file_name() {
            None => None,
            Some(name) => {
                let (before, _) = split_file_at_dot(name);
                Some(before)
            },
        }
    }
}

} // verus!
