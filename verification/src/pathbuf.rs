//! Owned, mutable paths.
//!
//! [`PathBuf`] owns its string and offers in-place mutation: appending a
//! path, dropping the final component, replacing the file name or the
//! extension.  Every operation's result is pinned down as a function of
//! the old character sequence.

use vstd::prelude::*;
use crate::path::{Path, spec_parent, spec_file_name, spec_stem_of, spec_ext_of};
use crate::components::{SEPERATOR, SEPERATOR_STR, spec_has_root, nb, lemma_nb, comps_of, CompView};

verus! {

/// What appending `b` to the path `a` yields: an absolute `b` replaces `a`,
/// a relative one is appended, with a separator in between when `a` does
/// not already end in one.
pub open spec fn spec_push(a: Seq<char>, b: Seq<char>) -> Seq<char> {
    if spec_has_root(b) {
        b
    } else if a.len() > 0 && a.last() != SEPERATOR {
        a + seq![SEPERATOR] + b
    } else {
        a + b
    }
}

/// What replacing the file name of `s` with `f` yields: the file name (if
/// any) is dropped, then `f` is appended.
pub open spec fn spec_set_file_name(s: Seq<char>, f: Seq<char>) -> Seq<char> {
    let base = if spec_file_name(s) is Some {
        match spec_parent(s) {
            Some(p) => p,
            None => s,
        }
    } else {
        s
    };
    spec_push(base, f)
}

/// What replacing the extension of `s` with `e` yields: nothing if `s` has
/// no file stem; otherwise the file name is replaced by the stem, followed
/// by `.e` when `e` is nonempty.
pub open spec fn spec_set_extension(s: Seq<char>, e: Seq<char>) -> (bool, Seq<char>) {
    match spec_file_name(s) {
        None => (false, s),
        Some(f) => {
            let new_name = if e.len() == 0 {
                spec_stem_of(f)
            } else {
                spec_stem_of(f) + seq!['.'] + e
            };
            (true, spec_set_file_name(s, new_name))
        },
    }
}

/// An owned, mutable path (akin to `String`).
pub struct PathBuf {
    pub inner: String,
}

impl View for PathBuf {
    type V = Seq<char>;

    open spec fn view(&self) -> Seq<char> {
        self.inner@
    }
}

impl Clone for PathBuf {
    fn clone(&self) -> (r: Self)
        ensures
            r@ == self@,
    {
        PathBuf { inner: self.inner.clone() }
    }
}

impl PathBuf {
    pub fn new() -> (r: PathBuf)
        ensures
            r@ == Seq::<char>::empty(),
    {
        PathBuf { inner: String::new() }
    }

    /// A fresh, empty path; the requested capacity only pre-sizes the
    /// backing storage.
    pub fn with_capacity(capacity: usize) -> (r: PathBuf)
        ensures
            r@ == Seq::<char>::empty(),
    {
        let _ = capacity;
        PathBuf { inner: String::new() }
    }

    /// Build an owned path from a borrowed string.
    pub fn from(s: &str) -> (r: PathBuf)
        ensures
            r@ == s@,
    {
        PathBuf { inner: String::from_str(s) }
    }

    /// Build an owned path, taking ownership of the string.
    pub fn from_string(s: String) -> (r: PathBuf)
        ensures
            r@ == s@,
    {
        PathBuf { inner: s }
    }

    pub fn as_path(&self) -> (r: Path<'_>)
        ensures
            r@ == self@,
    {
        Path::new(self.inner.as_str())
    }

    pub fn as_str(&self) -> (r: &str)
        ensures
            r@ == self@,
    {
        self.inner.as_str()
    }

    pub fn into_string(self) -> (r: String)
        ensures
            r@ == self@,
    {
        self.inner
    }

    pub fn clear(&mut self)
        ensures
            final(self)@ == Seq::<char>::empty(),
    {
        self.inner = String::new();
    }

    /// Append a path: an absolute path replaces this one, a relative path
    /// extends it, separated from what is there when necessary.
    pub fn push(&mut self, path: Path<'_>)
        ensures
            final(self)@ == spec_push(old(self)@, path@),
    {
        proof {
            reveal_strlit("/");
        }
        let n = self.inner.as_str().unicode_len();
        let need_sep = if n > 0 {
            self.inner.as_str().get_char(n - 1) != SEPERATOR
        } else {
            false
        };
        if path.is_absolute() {
            self.inner = String::from_str(path.as_str());
        } else {
            if need_sep {
                self.inner.append(SEPERATOR_STR);
                proof {
                    assert(SEPERATOR_STR@ =~= seq![SEPERATOR]);
                }
            }
            self.inner.append(path.as_str());
            proof {
                if n > 0 && old(self)@.last() != SEPERATOR {
                    assert(self@ =~= old(self)@ + seq![SEPERATOR] + path@);
                } else {
                    assert(self@ =~= old(self)@ + path@);
                }
            }
        }
    }

    /// Drop the final component, if there is one to drop.
    pub fn pop(&mut self) -> (r: bool)
        ensures
            ({
                match spec_parent(old(self)@) {
                    Some(p) => r && final(self)@ == p,
                    None => !r && final(self)@ == old(self)@,
                }
            }),
    {
        let len_opt = {
            match self.as_path().parent() {
                Some(p) => Some(p.as_str().unicode_len()),
                None => None,
            }
        };
        match len_opt {
            Some(len) => {
                let t = String::from_str(self.inner.as_str().substring_char(0, len));
                self.inner = t;
                proof {
                    let p = match spec_parent(old(self)@) {
                        Some(p) => p,
                        None => Seq::<char>::empty(),
                    };
                    assert(self@ =~= p);
                }
                true
            },
            None => false,
        }
    }

    /// Replace the file name, or append one if the path has none.
    pub fn set_file_name(&mut self, file_name: &str)
        ensures
            final(self)@ == spec_set_file_name(old(self)@, file_name@),
    {
        let has_name = self.as_path().file_name().is_some();
        if has_name {
            proof {
                lemma_nb(old(self)@, true);
            }
            let popped = self.pop();
            proof {
                assert(popped);
            }
        }
        self.push(Path::new(file_name));
    }

    /// Replace the extension of the file name, or add one.  Returns false
    /// when the path has no file name to operate on.
    pub fn set_extension(&mut self, extension: &str) -> (r: bool)
        ensures
            ({
                let (rr, v) = spec_set_extension(old(self)@, extension@);
                r == rr && final(self)@ == v
            }),
    {
        proof {
            reveal_strlit(".");
            assert("."@ =~= seq!['.']);
        }
        let new_name_opt = {
            match self.as_path().file_name() {
                None => None,
                Some(name) => {
                    let (before, after) = crate::path::rsplit_file_at_dot(name);
                    let stem = match before {
                        Some(b) => b,
                        None => match after {
                            Some(a) => a,
                            None => name,
                        },
                    };
                    let mut new_name = String::from_str(stem);
                    if extension.unicode_len() > 0 {
                        new_name.append(".");
                        new_name.append(extension);
                    }
                    Some(new_name)
                },
            }
        };
        match new_name_opt {
            None => false,
            Some(new_name) => {
                proof {
                    let f = match spec_file_name(old(self)@) {
                        Some(f) => f,
                        None => Seq::<char>::empty(),
                    };
                    if extension@.len() == 0 {
                        assert(new_name@ =~= spec_stem_of(f));
                    } else {
                        assert(new_name@ =~= spec_stem_of(f) + seq!['.'] + extension@);
                    }
                }
                self.set_file_name(new_name.as_str());
                true
            },
        }
    }
}

} // verus!
