//! Parsing a path string into its components.
//!
//! A path is a sequence of chunks separated by `/`.  Iteration yields a
//! leading `RootDir` for an absolute path, a leading `CurDir` for a path
//! that is `"."` or starts with `"./"`, and then one component per chunk:
//! empty chunks and `"."` chunks are skipped, `".."` yields `ParentDir`,
//! anything else yields `Normal`.  Iteration works from both ends without
//! allocating; the specification functions in this module describe both
//! directions exactly.

use vstd::prelude::*;
use crate::path::Path;

verus! {

pub const SEPERATOR: char = '/';

pub const SEPERATOR_STR: &'static str = "/";

/// The value of one parsed component, for specifications.
pub enum CompView {
    Root,
    Cur,
    Parent,
    Normal(Seq<char>),
}

/// One component of a path.
pub enum Component<'a> {
    RootDir,
    CurDir,
    ParentDir,
    Normal(&'a str),
}

impl<'a> View for Component<'a> {
    type V = CompView;

    open spec fn view(&self) -> CompView {
        match self {
            Component::RootDir => CompView::Root,
            Component::CurDir => CompView::Cur,
            Component::ParentDir => CompView::Parent,
            Component::Normal(s) => CompView::Normal(s@),
        }
    }
}

/// Does the path start with a separator?
pub open spec fn spec_has_root(s: Seq<char>) -> bool {
    s.len() > 0 && s[0] == SEPERATOR
}

/// Is the path `"."`, or does it start with `"./"`?  Such a path yields one
/// leading `CurDir`.
pub open spec fn spec_include_cur(s: Seq<char>) -> bool {
    &&& !spec_has_root(s)
    &&& s.len() > 0
    &&& s[0] == '.'
    &&& (s.len() == 1 || s[1] == SEPERATOR)
}

/// Index of the first separator, or `s.len()` if there is none.
pub open spec fn first_sep(s: Seq<char>) -> int
    decreases s.len(),
{
    if s.len() == 0 {
        0
    } else if s[0] == SEPERATOR {
        0
    } else {
        1 + first_sep(s.drop_first())
    }
}

/// Index of the last separator, or `-1` if there is none.
pub open spec fn last_sep(s: Seq<char>) -> int
    decreases s.len(),
{
    if s.len() == 0 {
        -1
    } else if s[s.len() - 1] == SEPERATOR {
        s.len() - 1
    } else {
        last_sep(s.drop_last())
    }
}

pub proof fn lemma_first_sep(s: Seq<char>)
    ensures
        0 <= first_sep(s) <= s.len(),
        forall|i: int| 0 <= i < first_sep(s) ==> s[i] != SEPERATOR,
        first_sep(s) < s.len() ==> s[first_sep(s)] == SEPERATOR,
    decreases s.len(),
{
    if s.len() == 0 {
    } else if s[0] == SEPERATOR {
    } else {
        lemma_first_sep(s.drop_first());
        assert forall|i: int| 0 <= i < first_sep(s) implies s[i] != SEPERATOR by {
            if i > 0 {
                assert(s.drop_first()[i - 1] == s[i]);
            }
        }
        if first_sep(s) < s.len() {
            assert(s.drop_first()[first_sep(s) - 1] == s[first_sep(s)]);
        }
    }
}

pub proof fn lemma_last_sep(s: Seq<char>)
    ensures
        -1 <= last_sep(s) < s.len(),
        forall|i: int| last_sep(s) < i < s.len() ==> s[i] != SEPERATOR,
        last_sep(s) >= 0 ==> s[last_sep(s)] == SEPERATOR,
    decreases s.len(),
{
    if s.len() == 0 {
    } else if s[s.len() - 1] == SEPERATOR {
    } else {
        lemma_last_sep(s.drop_last());
        assert forall|i: int| last_sep(s) < i < s.len() implies s[i] != SEPERATOR by {
            if i < s.len() - 1 {
                assert(s.drop_last()[i] == s[i]);
            }
        }
        if last_sep(s) >= 0 {
            assert(s.drop_last()[last_sep(s)] == s[last_sep(s)]);
        }
    }
}

/// What a single chunk between separators contributes: nothing for an empty
/// or `"."` chunk, `ParentDir` for `".."`, otherwise a `Normal` component.
pub open spec fn parse_chunk(c: Seq<char>) -> Option<CompView> {
    if c.len() == 0 || c == seq!['.'] {
        None
    } else if c == seq!['.', '.'] {
        Some(CompView::Parent)
    } else {
        Some(CompView::Normal(c))
    }
}

/// The first chunk of the path body.
pub open spec fn chunk_of(s: Seq<char>) -> Seq<char> {
    s.take(first_sep(s))
}

/// What remains of the path body after removing the first chunk and the
/// separator that ends it.
pub open spec fn rest_of(s: Seq<char>) -> Seq<char> {
    if first_sep(s) < s.len() {
        s.skip(first_sep(s) + 1)
    } else {
        Seq::empty()
    }
}

/// The components of a path body (a path whose leading marker, if any, has
/// already been consumed).
pub open spec fn body_comps(s: Seq<char>) -> Seq<CompView>
    decreases s.len(),
    via body_comps_dec
{
    if s.len() == 0 {
        Seq::empty()
    } else {
        (match parse_chunk(chunk_of(s)) {
            Option::None => Seq::empty(),
            Option::Some(c) => seq![c],
        }) + body_comps(rest_of(s))
    }
}

#[via_fn]
proof fn body_comps_dec(s: Seq<char>) {
    lemma_first_sep(s);
}

/// The full component sequence of a path.
pub open spec fn comps_of(s: Seq<char>) -> Seq<CompView> {
    if spec_has_root(s) {
        seq![CompView::Root] + body_comps(s.drop_first())
    } else if spec_include_cur(s) {
        seq![CompView::Cur] + body_comps(s.drop_first())
    } else {
        body_comps(s)
    }
}

/// Where each end of the iteration stands: before the leading marker, in the
/// body of the path, or past the end.
#[derive(Clone, Copy, PartialEq, Eq, Structural)]
pub enum State {
    StartDir,
    Body,
    Done,
}

pub open spec fn state_idx(st: State) -> int {
    match st {
        State::StartDir => 0,
        State::Body => 1,
        State::Done => 2,
    }
}

/// Rank of the back state along its Body -> StartDir -> Done progression.
pub open spec fn back_rank(st: State) -> int {
    match st {
        State::Body => 2,
        State::StartDir => 1,
        State::Done => 0,
    }
}

/// Number of leading characters that belong to the marker (`/`, or the `.`
/// of a leading `./`) and are out of reach of backward body parsing while
/// the front has not consumed them.
pub open spec fn spec_lbb(s: Seq<char>, front_start: bool) -> int {
    if front_start && (spec_has_root(s) || spec_include_cur(s)) {
        1
    } else {
        0
    }
}

/// One forward step: the path that remains, the component yielded (if any),
/// and the new front state.
pub open spec fn nf(s: Seq<char>, front: State) -> (Seq<char>, Option<CompView>, State)
    decreases s.len(), 2 - state_idx(front),
    via nf_dec
{
    match front {
        State::StartDir => {
            if spec_has_root(s) || spec_include_cur(s) {
                (s.drop_first(), Some(if spec_has_root(s) { CompView::Root } else { CompView::Cur }), State::Body)
            } else {
                nf(s, State::Body)
            }
        },
        State::Body => {
            if s.len() == 0 {
                (s, None, State::Done)
            } else {
                match parse_chunk(chunk_of(s)) {
                    Some(c) => (rest_of(s), Some(c), State::Body),
                    None => nf(rest_of(s), State::Body),
                }
            }
        },
        State::Done => (s, None, State::Done),
    }
}

#[via_fn]
proof fn nf_dec(s: Seq<char>, front: State) {
    lemma_first_sep(s);
}

/// One backward step, from a `Body` back end: the path that remains, the
/// component yielded (if any), and the new back state.
pub open spec fn nb(s: Seq<char>, front_start: bool) -> (Seq<char>, Option<CompView>, State)
    decreases s.len(),
    via nb_dec
{
    let b = spec_lbb(s, front_start);
    if s.len() > b {
        let t = s.skip(b);
        let k = last_sep(t);
        let chunk = if k >= 0 { t.skip(k + 1) } else { t };
        let ns = s.take(b + if k >= 0 { k } else { 0 });
        match parse_chunk(chunk) {
            Some(c) => (ns, Some(c), State::Body),
            None => nb(ns, front_start),
        }
    } else {
        if front_start && spec_has_root(s) {
            (s.take(s.len() - 1), Some(CompView::Root), State::Done)
        } else if front_start && spec_include_cur(s) {
            (s.take(s.len() - 1), Some(CompView::Cur), State::Done)
        } else if front_start {
            (s, None, State::Done)
        } else {
            (s, None, State::StartDir)
        }
    }
}

#[via_fn]
proof fn nb_dec(s: Seq<char>, front_start: bool) {
    let b = spec_lbb(s, front_start);
    if s.len() > b {
        lemma_last_sep(s.skip(b));
    }
}

/// Repeatedly strip leading chunks that yield no component.
pub open spec fn trim_left_s(s: Seq<char>) -> Seq<char>
    decreases s.len(),
    via trim_left_dec
{
    if s.len() == 0 {
        s
    } else if parse_chunk(chunk_of(s)) is Some {
        s
    } else {
        trim_left_s(rest_of(s))
    }
}

#[via_fn]
proof fn trim_left_dec(s: Seq<char>) {
    lemma_first_sep(s);
}

/// Repeatedly strip trailing chunks that yield no component, stopping at
/// the leading marker.
pub open spec fn trim_right_s(s: Seq<char>, front_start: bool) -> Seq<char>
    decreases s.len(),
    via trim_right_dec
{
    let b = spec_lbb(s, front_start);
    if s.len() > b {
        let t = s.skip(b);
        let k = last_sep(t);
        let chunk = if k >= 0 { t.skip(k + 1) } else { t };
        if parse_chunk(chunk) is Some {
            s
        } else {
            trim_right_s(s.take(b + if k >= 0 { k } else { 0 }), front_start)
        }
    } else {
        s
    }
}

#[via_fn]
proof fn trim_right_dec(s: Seq<char>, front_start: bool) {
    let b = spec_lbb(s, front_start);
    if s.len() > b {
        lemma_last_sep(s.skip(b));
    }
}

/// The string `as_path` returns for a given iterator state.
pub open spec fn as_path_s(s: Seq<char>, front: State, back: State) -> Seq<char> {
    let s1 = if front == State::Body {
        trim_left_s(s)
    } else {
        s
    };
    if back == State::Body {
        trim_right_s(s1, front == State::StartDir)
    } else {
        s1
    }
}

proof fn lemma_first_sep_unique(s: Seq<char>, i: int)
    requires
        0 <= i <= s.len(),
        forall|j: int| 0 <= j < i ==> s[j] != SEPERATOR,
        i < s.len() ==> s[i] == SEPERATOR,
    ensures
        first_sep(s) == i,
{
    lemma_first_sep(s);
}

proof fn lemma_last_sep_unique(s: Seq<char>, i: int)
    requires
        -1 <= i < s.len(),
        forall|j: int| i < j < s.len() ==> s[j] != SEPERATOR,
        i >= 0 ==> s[i] == SEPERATOR,
    ensures
        last_sep(s) == i,
{
    lemma_last_sep(s);
}

/// The sequence a parsed chunk contributes to the component list.
pub open spec fn pseq(c: Option<CompView>) -> Seq<CompView> {
    match c {
        None => Seq::empty(),
        Some(x) => seq![x],
    }
}

/// Cutting a path after a backward parse step keeps its leading marker (or
/// its absence) intact.
proof fn lemma_back_cut(s: Seq<char>, front_start: bool)
    requires
        s.len() > spec_lbb(s, front_start),
    ensures
        ({
            let b = spec_lbb(s, front_start);
            let t = s.skip(b);
            let k = last_sep(t);
            let ns = s.take(
                b + if k >= 0 {
                    k
                } else {
                    0
                },
            );
            &&& front_start || (!spec_has_root(s) && !spec_include_cur(s)) ==> spec_has_root(ns)
                == spec_has_root(s)
            &&& front_start || (!spec_has_root(s) && !spec_include_cur(s)) ==> spec_include_cur(
                ns,
            ) == spec_include_cur(s)
            &&& ns.skip(b) =~= t.take(
                if k >= 0 {
                    k
                } else {
                    0
                },
            )
            &&& ns.len() < s.len()
        }),
{
    let b = spec_lbb(s, front_start);
    let t = s.skip(b);
    let k = last_sep(t);
    lemma_last_sep(t);
    let m = b + if k >= 0 {
        k
    } else {
        0
    };
    let ns = s.take(m);
    assert(forall|i: int| 0 <= i < m ==> ns[i] == s[i]);
    if b == 1 {
        if spec_has_root(s) {
            if ns.len() > 0 {
                assert(ns[0] == s[0]);
            }
        } else {
            // leading "." marker
            assert(s[0] == '.');
            assert(m >= 1);
            assert(ns[0] == '.');
            if ns.len() == 1 {
            } else {
                assert(s.len() > 1 && s[1] == SEPERATOR);
                assert(ns[1] == s[1]);
            }
        }
    } else if !spec_has_root(s) && !spec_include_cur(s) {
        // no marker at the start of `s`, and none at the start of `ns`
        if ns.len() > 0 {
            assert(ns[0] == s[0]);
            assert(!spec_has_root(ns));
            if ns[0] == '.' && s.len() >= 2 {
                assert(s[1] != SEPERATOR);
                if ns.len() == 1 {
                    assert(m == 1);
                    assert(t[1] == SEPERATOR);
                    assert(false);
                } else {
                    assert(ns[1] == s[1]);
                }
            }
            if ns[0] == '.' && s.len() < 2 {
                assert(spec_include_cur(s));
                assert(false);
            }
        }
    }
}

/// A nonempty path body splits into its front part and its last chunk.
proof fn lemma_body_last(t: Seq<char>)
    requires
        t.len() > 0,
    ensures
        ({
            let k = last_sep(t);
            let chunk = if k >= 0 {
                t.skip(k + 1)
            } else {
                t
            };
            let tns = t.take(
                if k >= 0 {
                    k
                } else {
                    0
                },
            );
            body_comps(t) == body_comps(tns) + pseq(parse_chunk(chunk))
        }),
    decreases t.len(),
{
    let k = last_sep(t);
    lemma_last_sep(t);
    let chunk = if k >= 0 {
        t.skip(k + 1)
    } else {
        t
    };
    let tns = t.take(
        if k >= 0 {
            k
        } else {
            0
        },
    );
    if k < 0 {
        lemma_first_sep_unique(t, t.len() as int);
        assert(chunk_of(t) =~= t);
        assert(tns =~= Seq::<char>::empty());
        assert(body_comps(t) =~= body_comps(tns) + pseq(parse_chunk(chunk)));
    } else {
        let j = first_sep(t);
        lemma_first_sep(t);
        assert(j <= k);
        let rest = rest_of(t);
        assert(rest =~= t.skip(j + 1));
        if j == k {
            // the first separator is the last one: two chunks
            assert(first_sep(tns) == tns.len()) by {
                assert(forall|i: int| 0 <= i < tns.len() ==> tns[i] == t[i]);
                lemma_first_sep_unique(tns, tns.len() as int);
            }
            assert(chunk_of(tns) =~= tns);
            assert(tns =~= chunk_of(t));
            assert(chunk =~= rest);
            assert(body_comps(tns) == pseq(parse_chunk(chunk_of(tns))) + body_comps(
                Seq::<char>::empty(),
            ) || tns.len() == 0);
            if tns.len() == 0 {
                assert(body_comps(tns) =~= Seq::<CompView>::empty());
                assert(chunk_of(t) =~= Seq::<char>::empty());
                assert(parse_chunk(chunk_of(t)) is None);
            } else {
                assert(body_comps(tns) =~= pseq(parse_chunk(chunk_of(t))));
            }
            if rest.len() == 0 {
                assert(parse_chunk(chunk) is None);
                assert(body_comps(t) == pseq(parse_chunk(chunk_of(t))) + body_comps(rest));
                assert(body_comps(rest) =~= Seq::<CompView>::empty());
                assert(body_comps(t) =~= body_comps(tns) + pseq(parse_chunk(chunk)));
            } else {
                assert(first_sep(rest) == rest.len()) by {
                    assert(forall|i: int| 0 <= i < rest.len() ==> rest[i] == t[j + 1 + i]);
                    lemma_first_sep_unique(rest, rest.len() as int);
                }
                assert(chunk_of(rest) =~= rest);
                assert(rest_of(rest) =~= Seq::<char>::empty());
                assert(body_comps(rest) == pseq(parse_chunk(chunk_of(rest))) + body_comps(
                    rest_of(rest),
                ));
                assert(body_comps(Seq::<char>::empty()) =~= Seq::<CompView>::empty());
                assert(body_comps(rest) =~= pseq(parse_chunk(rest)));
                assert(body_comps(t) == pseq(parse_chunk(chunk_of(t))) + body_comps(rest));
                assert(body_comps(t) =~= body_comps(tns) + pseq(parse_chunk(chunk)));
            }
        } else {
            // the last chunk lies inside the rest of the body
            assert(rest.len() >= k - j >= 1);
            assert(last_sep(rest) == k - j - 1) by {
                assert(forall|i: int| 0 <= i < rest.len() ==> rest[i] == t[j + 1 + i]);
                assert(rest[k - j - 1] == t[k as int]);
                lemma_last_sep_unique(rest, k - j - 1);
            }
            lemma_body_last(rest);
            assert(rest.skip(k - j) =~= chunk);
            assert(first_sep(tns) == j) by {
                assert(forall|i: int| 0 <= i < tns.len() ==> tns[i] == t[i]);
                lemma_first_sep_unique(tns, j);
            }
            assert(chunk_of(tns) =~= chunk_of(t));
            assert(rest_of(tns) =~= rest.take(k - j - 1));
            assert(body_comps(t) == pseq(parse_chunk(chunk_of(t))) + body_comps(rest));
            assert(body_comps(rest) == body_comps(rest.take(k - j - 1)) + pseq(
                parse_chunk(chunk),
            ));
            assert(body_comps(tns) == pseq(parse_chunk(chunk_of(t))) + body_comps(
                rest.take(k - j - 1),
            ));
            assert(body_comps(t) =~= body_comps(tns) + pseq(parse_chunk(chunk)));
        }
    }
}

/// The backward step yields exactly the last element of the component
/// sequence, and keeps the leading marker intact while the body lasts.
#[verifier::rlimit(30)]
pub proof fn lemma_nb(s: Seq<char>, front_start: bool)
    ensures
        ({
            let (ns, rc, nback) = nb(s, front_start);
            let v = if front_start {
                comps_of(s)
            } else {
                body_comps(s)
            };
            &&& (v.len() > 0 ==> rc == Some(v.last()))
            &&& (v.len() > 0 && nback == State::Body ==> (if front_start {
                comps_of(ns)
            } else {
                body_comps(ns)
            }) == v.drop_last() && (front_start ==> spec_has_root(ns) == spec_has_root(s)
                && spec_include_cur(ns) == spec_include_cur(s)))
            &&& (v.len() > 0 && nback != State::Body ==> v.len() == 1 && ns.len() == 0)
            &&& (v.len() > 0 ==> ns == s.take(ns.len() as int) && ns.len() < s.len())
            &&& ns.len() <= s.len()
            &&& (v.len() == 0 ==> rc is None)
        }),
    decreases s.len(),
{
    let b = spec_lbb(s, front_start);
    let v = if front_start {
        comps_of(s)
    } else {
        body_comps(s)
    };
    if s.len() > b {
        let t = s.skip(b);
        let k = last_sep(t);
        lemma_last_sep(t);
        let chunk = if k >= 0 {
            t.skip(k + 1)
        } else {
            t
        };
        let ns = s.take(
            b + if k >= 0 {
                k
            } else {
                0
            },
        );
        lemma_back_cut(s, front_start);
        lemma_body_last(t);
        let vns = if front_start {
            comps_of(ns)
        } else {
            body_comps(ns)
        };
        if b == 1 {
            assert(t =~= s.drop_first());
            assert(ns.skip(1) =~= ns.drop_first());
        } else {
            assert(t =~= s);
            assert(ns.skip(0) =~= ns);
        }
        assert(v =~= vns + pseq(parse_chunk(chunk)));
        assert(ns == s.take(ns.len() as int));
        match parse_chunk(chunk) {
            Some(c) => {
                assert(v.len() > 0);
                assert(v.last() == c);
                assert(v.drop_last() =~= vns);
            },
            None => {
                assert(v =~= vns);
                lemma_nb(ns, front_start);
                let (ns2, rc2, nback2) = nb(ns, front_start);
                if vns.len() > 0 {
                    assert(ns2.len() <= ns.len());
                    assert(ns2 == ns.take(ns2.len() as int));
                    assert forall|i: int| 0 <= i < ns2.len() implies ns2[i] == s[i] by {
                        assert(ns2[i] == ns[i]);
                    }
                    assert(ns2 =~= s.take(ns2.len() as int));
                }
            },
        }
    } else {
        if front_start && spec_has_root(s) {
            assert(s.len() == 1);
            assert(s.drop_first() =~= Seq::<char>::empty());
            assert(v =~= seq![CompView::Root]);
        } else if front_start && spec_include_cur(s) {
            assert(s.len() == 1);
            assert(s.drop_first() =~= Seq::<char>::empty());
            assert(v =~= seq![CompView::Cur]);
        } else {
            assert(s.len() == 0);
            assert(v.len() == 0);
        }
        assert(s.take(0) =~= Seq::<char>::empty());
    }
}


/// A path that carries no dangling separators or `"."` chunks at its
/// right end reads back unchanged from a fresh component iterator:
/// iteration walks the very characters of the path, and
/// `as_path` of an untouched iterator only trims what the path does not
/// have.  Paths with such trailing chunks are the inputs on which the
/// identity fails, and they are exactly what `trim_right_s` removes.
pub proof fn lemma_as_path_identity(s: Seq<char>)
    requires
        trim_right_s(s, true) == s,
    ensures
        as_path_s(s, State::StartDir, State::Body) == s,
{
}


/// Splitting into chunks distributes over concatenation at a separator:
/// when `x` ends with one, the chunks of `x + y` are the chunks of `x`
/// followed by the chunks of `y`.
proof fn lemma_body_concat(x: Seq<char>, y: Seq<char>)
    requires
        x.len() > 0,
        x.last() == SEPERATOR,
    ensures
        body_comps(x + y) == body_comps(x) + body_comps(y),
    decreases x.len(),
{
    let s = x + y;
    lemma_first_sep(x);
    lemma_first_sep(s);
    let j = first_sep(x);
    assert(j < x.len());
    assert(first_sep(s) == j) by {
        assert(forall|i: int| 0 <= i < x.len() ==> s[i] == x[i]);
        assert(s[j] == SEPERATOR);
        lemma_first_sep_unique(s, j);
    }
    assert(chunk_of(s) =~= chunk_of(x));
    let rx = rest_of(x);
    assert(rest_of(s) =~= rx + y);
    if rx.len() == 0 {
        assert(j == x.len() - 1);
        assert(rx + y =~= y);
        assert(body_comps(x) =~= pseq(parse_chunk(chunk_of(x))) + body_comps(rx));
        assert(body_comps(s) =~= body_comps(x) + body_comps(y));
    } else {
        assert(rx.last() == x.last()) by {
            assert(rx[rx.len() - 1] == x[x.len() - 1]);
        }
        lemma_body_concat(rx, y);
        assert(body_comps(s) =~= body_comps(x) + body_comps(y));
    }
}

/// A dangling separator at the right end contributes no component.
proof fn lemma_trailing_sep(x: Seq<char>)
    ensures
        body_comps(x.push(SEPERATOR)) == body_comps(x),
    decreases x.len(),
{
    let s = x.push(SEPERATOR);
    lemma_first_sep(x);
    lemma_first_sep(s);
    let j = first_sep(x);
    if j == x.len() {
        // x has no separator: the push adds the only one, at the end
        assert(first_sep(s) == j) by {
            assert(forall|i: int| 0 <= i < x.len() ==> s[i] == x[i]);
            assert(s[j] == SEPERATOR);
            lemma_first_sep_unique(s, j);
        }
        assert(chunk_of(s) =~= x);
        assert(chunk_of(x) =~= x);
        assert(rest_of(s) =~= Seq::<char>::empty());
        assert(rest_of(x) =~= Seq::<char>::empty()) by {
            if first_sep(x) < x.len() {
            }
        }
        assert(parse_chunk(chunk_of(s)) == parse_chunk(chunk_of(x)));
        assert(body_comps(rest_of(s)) =~= Seq::<CompView>::empty());
        if x.len() == 0 {
            assert(body_comps(x) =~= Seq::<CompView>::empty());
            assert(parse_chunk(chunk_of(s)) is None);
            assert(body_comps(s) =~= body_comps(x));
        } else {
            assert(body_comps(x) == pseq(parse_chunk(chunk_of(x))) + body_comps(rest_of(x)));
            assert(body_comps(s) == pseq(parse_chunk(chunk_of(s))) + body_comps(rest_of(s)));
            assert(body_comps(s) =~= body_comps(x));
        }
    } else {
        assert(first_sep(s) == j) by {
            assert(forall|i: int| 0 <= i < x.len() ==> s[i] == x[i]);
            lemma_first_sep_unique(s, j);
        }
        assert(chunk_of(s) =~= chunk_of(x));
        assert(rest_of(s) =~= rest_of(x).push(SEPERATOR));
        lemma_trailing_sep(rest_of(x));
        assert(body_comps(s) =~= body_comps(x));
    }
}

/// Appending a relative path that does not begin with a `"."` marker
/// concatenates the components: the components of `push(a, b)` are those
/// of `a` followed by those of `b`.  Stripping `a`'s components off the
/// result therefore leaves exactly `b`'s components.  A `b` that starts
/// with a `"."` marker is the input the law leaves out: the marker
/// vanishes when `b` is appended behind a separator.
pub proof fn lemma_push_components(a: Seq<char>, b: Seq<char>)
    requires
        !spec_has_root(b),
        !spec_include_cur(b),
    ensures
        comps_of(crate::pathbuf::spec_push(a, b)) == comps_of(a) + comps_of(b),
{
    let s = crate::pathbuf::spec_push(a, b);
    if a.len() == 0 {
        assert(s == b);
        assert(comps_of(a) =~= Seq::<CompView>::empty());
        assert(comps_of(a) + comps_of(b) =~= comps_of(b));
    } else if a.last() == SEPERATOR {
        assert(s == a + b);
        assert(s[0] == a[0]);
        assert(s.len() > 1 ==> s[1] == (if a.len() > 1 {
            a[1]
        } else {
            b[0]
        }));
        lemma_body_concat(a, b);
        if spec_has_root(a) {
            assert(spec_has_root(s));
            assert(a.drop_first().len() > 0 ==> a.drop_first().last() == a.last());
            if a.len() == 1 {
                assert(a.drop_first() =~= Seq::<char>::empty());
                assert(s.drop_first() =~= b);
                assert(comps_of(s) =~= comps_of(a) + comps_of(b));
            } else {
                assert(a.drop_first()[a.len() - 2] == a[a.len() - 1]);
                lemma_body_concat(a.drop_first(), b);
                assert(s.drop_first() =~= a.drop_first() + b);
                assert(comps_of(s) =~= comps_of(a) + comps_of(b));
            }
        } else if spec_include_cur(a) {
            assert(spec_include_cur(s)) by {
                assert(a[0] == '.');
                if a.len() == 1 {
                } else {
                    assert(s[1] == a[1]);
                }
            }
            assert(a.len() > 1) by {
                if a.len() == 1 {
                    assert(a.last() == '.');
                }
            }
            assert(a.drop_first()[a.len() - 2] == a[a.len() - 1]);
            lemma_body_concat(a.drop_first(), b);
            assert(s.drop_first() =~= a.drop_first() + b);
            assert(comps_of(s) =~= comps_of(a) + comps_of(b));
        } else {
            assert(!spec_has_root(s));
            assert(!spec_include_cur(s)) by {
                if s[0] == '.' {
                    assert(a[0] == '.');
                    if a.len() == 1 {
                        assert(a.last() == '.');
                    } else {
                        assert(s[1] == a[1]);
                    }
                }
            }
            assert(comps_of(s) =~= comps_of(a) + comps_of(b));
        }
    } else {
        assert(s == a + seq![SEPERATOR] + b);
        let a2 = a.push(SEPERATOR);
        assert(a + seq![SEPERATOR] =~= a2);
        assert(s =~= a2 + b);
        assert(a2.last() == SEPERATOR);
        lemma_body_concat(a2, b);
        lemma_trailing_sep(a);
        // the markers of `a2` and of `a` agree
        assert(a2[0] == a[0]);
        assert(a.len() > 1 ==> a2[1] == a[1]);
        assert(s[0] == a[0]);
        if spec_has_root(a) {
            assert(a.len() > 1) by {
                if a.len() == 1 {
                    assert(a.last() == SEPERATOR);
                }
            }
            assert(a2.drop_first() =~= a.drop_first().push(SEPERATOR));
            lemma_trailing_sep(a.drop_first());
            assert(a2.drop_first().last() == SEPERATOR);
            assert(s.drop_first() =~= a2.drop_first() + b);
            lemma_body_concat(a2.drop_first(), b);
            assert(comps_of(s) =~= comps_of(a) + comps_of(b));
        } else if spec_include_cur(a) {
            assert(a[0] == '.');
            assert(spec_include_cur(s)) by {
                if a.len() == 1 {
                    assert(s[1] == SEPERATOR);
                } else {
                    assert(s[1] == a[1]);
                }
            }
            assert(a2.drop_first() =~= a.drop_first().push(SEPERATOR));
            lemma_trailing_sep(a.drop_first());
            assert(a2.drop_first().last() == SEPERATOR);
            assert(s.drop_first() =~= a2.drop_first() + b);
            lemma_body_concat(a2.drop_first(), b);
            assert(comps_of(s) =~= comps_of(a) + comps_of(b));
        } else {
            assert(!spec_has_root(s));
            assert(!spec_include_cur(s)) by {
                if s[0] == '.' {
                    if a.len() == 1 {
                        assert(spec_include_cur(a));
                    } else {
                        assert(s[1] == a[1]);
                        if s[1] == SEPERATOR {
                            assert(spec_include_cur(a));
                        }
                    }
                }
            }
            assert(comps_of(s) =~= comps_of(a) + comps_of(b));
        }
    }
}

/// Trimming the left end strips no component and leaves a path that
/// starts with a real chunk, hence carries no leading marker.
pub proof fn lemma_trim_left(s: Seq<char>)
    ensures
        body_comps(trim_left_s(s)) == body_comps(s),
        !spec_has_root(trim_left_s(s)),
        !spec_include_cur(trim_left_s(s)),
        comps_of(trim_left_s(s)) == body_comps(s),
        trim_left_s(s).len() <= s.len(),
    decreases s.len(),
{
    if s.len() == 0 {
    } else {
        lemma_first_sep(s);
        let j = first_sep(s);
        match parse_chunk(chunk_of(s)) {
            Some(c) => {
                // the first chunk is nonempty and not ".", so the path
                // starts with at least one non-separator character
                assert(chunk_of(s).len() == j);
                assert(j >= 1);
                assert(s[0] != SEPERATOR) by {
                    assert(chunk_of(s)[0] == s[0]);
                }
                if s[0] == '.' {
                    if j == 1 {
                        assert(chunk_of(s) =~= seq!['.']);
                        assert(false);
                    }
                    assert(s[1] != SEPERATOR) by {
                        assert(chunk_of(s)[1] == s[1]);
                    }
                }
            },
            None => {
                assert(body_comps(s) == body_comps(rest_of(s)));
                lemma_trim_left(rest_of(s));
            },
        }
    }
}

/// Trimming the right end strips no component and keeps the leading marker
/// (or its absence) intact.
pub proof fn lemma_trim_right(s: Seq<char>, front_start: bool)
    ensures
        ({
            let r = trim_right_s(s, front_start);
            &&& (front_start ==> comps_of(r) == comps_of(s) && spec_has_root(r) == spec_has_root(
                s,
            ) && spec_include_cur(r) == spec_include_cur(s))
            &&& (!front_start && !spec_has_root(s) && !spec_include_cur(s) ==> body_comps(r)
                == body_comps(s) && !spec_has_root(r) && !spec_include_cur(r))
            &&& r.len() <= s.len()
            &&& r == s.take(r.len() as int)
        }),
    decreases s.len(),
{
    let b = spec_lbb(s, front_start);
    if s.len() > b {
        let t = s.skip(b);
        let k = last_sep(t);
        lemma_last_sep(t);
        let chunk = if k >= 0 {
            t.skip(k + 1)
        } else {
            t
        };
        let ns = s.take(
            b + if k >= 0 {
                k
            } else {
                0
            },
        );
        if parse_chunk(chunk) is Some {
        } else {
            lemma_back_cut(s, front_start);
            lemma_body_last(t);
            if b == 1 {
                assert(t =~= s.drop_first());
                assert(ns.skip(1) =~= ns.drop_first());
            } else {
                assert(t =~= s);
                assert(ns.skip(0) =~= ns);
            }
            assert(body_comps(t) =~= body_comps(
                t.take(
                    if k >= 0 {
                        k
                    } else {
                        0
                    },
                ),
            ));
            lemma_trim_right(ns, front_start);
            if front_start {
                assert(comps_of(ns) =~= comps_of(s));
            } else if !spec_has_root(s) && !spec_include_cur(s) {
                assert(body_comps(ns) =~= body_comps(s));
            }
        }
    }
}

/// What `as_path` returns parses back to exactly the components that are
/// still to be yielded.
pub proof fn lemma_as_path_comps(s: Seq<char>, front: State, back: State)
    requires
        front == State::StartDir || front == State::Body,
        back == State::Body,
    ensures
        comps_of(as_path_s(s, front, back)) == rem_from(s, front),
{
    if front == State::StartDir {
        lemma_trim_right(s, true);
    } else {
        lemma_trim_left(s);
        lemma_trim_right(trim_left_s(s), false);
    }
}

/// Index of the first separator at or after `from`, if any.
fn find_sep(s: &str, from: usize) -> (r: Option<usize>)
    requires
        from <= s@.len(),
    ensures
        ({
            let j = first_sep(s@.skip(from as int));
            if j < s@.len() - from {
                r == Some((from + j) as usize)
            } else {
                r is None
            }
        }),
{
    let n = s.unicode_len();
    let mut i = from;
    while i < n
        invariant
            from <= i <= n,
            n == s@.len(),
            from <= s@.len(),
            forall|j: int| from <= j < i ==> s@[j] != SEPERATOR,
        decreases n - i,
    {
        if s.get_char(i) == SEPERATOR {
            proof {
                let t = s@.skip(from as int);
                assert forall|j: int| 0 <= j < i - from implies t[j] != SEPERATOR by {
                    assert(t[j] == s@[from + j]);
                }
                assert(t[i - from] == s@[i as int]);
                lemma_first_sep_unique(t, i - from);
            }
            return Some(i);
        }
        i = i + 1;
    }
    proof {
        let t = s@.skip(from as int);
        assert forall|j: int| 0 <= j < t.len() implies t[j] != SEPERATOR by {
            assert(t[j] == s@[from + j]);
        }
        lemma_first_sep_unique(t, t.len() as int);
    }
    None
}

/// The view of an optional component.
pub open spec fn opt_view(r: Option<Component>) -> Option<CompView> {
    match r {
        Some(c) => Some(c@),
        None => None,
    }
}

/// The components still to be yielded, for a given front state, ignoring
/// the back end.
pub open spec fn rem_from(s: Seq<char>, front: State) -> Seq<CompView> {
    if front == State::StartDir {
        comps_of(s)
    } else {
        body_comps(s)
    }
}

/// The forward step yields exactly the head of the component sequence.
pub proof fn lemma_nf(s: Seq<char>, front: State)
    requires
        front != State::Done,
    ensures
        ({
            let (ns, rc, nfr) = nf(s, front);
            let v = rem_from(s, front);
            &&& (v.len() > 0 ==> rc == Some(v[0]) && nfr == State::Body && body_comps(ns)
                == v.drop_first() && ns.len() < s.len())
            &&& (v.len() == 0 ==> rc is None && nfr == State::Done)
        }),
    decreases s.len(), 2 - state_idx(front),
{
    match front {
        State::StartDir => {
            if spec_has_root(s) {
                let v = comps_of(s);
                assert(v[0] == CompView::Root);
                assert(v.drop_first() =~= body_comps(s.drop_first()));
            } else if spec_include_cur(s) {
                let v = comps_of(s);
                assert(v[0] == CompView::Cur);
                assert(v.drop_first() =~= body_comps(s.drop_first()));
            } else {
                lemma_nf(s, State::Body);
            }
        },
        State::Body => {
            if s.len() == 0 {
            } else {
                lemma_first_sep(s);
                match parse_chunk(chunk_of(s)) {
                    Some(c) => {
                        let v = body_comps(s);
                        assert(v == seq![c] + body_comps(rest_of(s)));
                        assert(v[0] == c);
                        assert(v.drop_first() =~= body_comps(rest_of(s)));
                    },
                    None => {
                        assert(body_comps(s) == body_comps(rest_of(s)));
                        lemma_nf(rest_of(s), State::Body);
                    },
                }
            }
        },
        State::Done => {},
    }
}

/// Index of the last separator at or after `from`, if any.
fn rfind_sep(s: &str, from: usize) -> (r: Option<usize>)
    requires
        from <= s@.len(),
    ensures
        ({
            let k = last_sep(s@.skip(from as int));
            if k >= 0 {
                r == Some((from + k) as usize)
            } else {
                r is None
            }
        }),
{
    let n = s.unicode_len();
    let mut i = n;
    while i > from
        invariant
            from <= i <= n,
            n == s@.len(),
            forall|j: int| i <= j < n ==> s@[j] != SEPERATOR,
        decreases i,
    {
        i = i - 1;
        if s.get_char(i) == SEPERATOR {
            proof {
                let t = s@.skip(from as int);
                assert forall|j: int| i - from < j < t.len() implies t[j] != SEPERATOR by {
                    assert(t[j] == s@[from + j]);
                }
                assert(t[i - from] == s@[i as int]);
                lemma_last_sep_unique(t, i - from);
            }
            return Some(i);
        }
    }
    proof {
        let t = s@.skip(from as int);
        assert forall|j: int| 0 <= j < t.len() implies t[j] != SEPERATOR by {
            assert(t[j] == s@[from + j]);
        }
        lemma_last_sep_unique(t, -1);
    }
    None
}

/// Parse one chunk (the text between two separators).
fn parse_single_component<'a>(comp: &'a str) -> (r: Option<Component<'a>>)
    ensures
        opt_view(r) == parse_chunk(comp@),
{
    let n = comp.unicode_len();
    if n == 0 {
        return None;
    }
    if n == 1 && comp.get_char(0) == '.' {
        proof {
            assert(comp@ =~= seq!['.']);
        }
        return None;
    }
    if n == 2 && comp.get_char(0) == '.' && comp.get_char(1) == '.' {
        proof {
            assert(comp@ =~= seq!['.', '.']);
        }
        return Some(Component::ParentDir);
    }
    proof {
        assert(comp@ == seq!['.'] ==> comp@.len() == 1 && comp@[0] == '.');
        assert(comp@ == seq!['.', '.'] ==> comp@.len() == 2 && comp@[0] == '.' && comp@[1] == '.');
    }
    Some(Component::Normal(comp))
}

/// An iterator over the components of a path, from either end.
pub struct Components<'a> {
    pub path: &'a str,
    pub has_physical_root: bool,
    pub front: State,
    pub back: State,
}

impl<'a> Components<'a> {
    /// The characters not yet consumed by iteration.
    pub open spec fn path_view(self) -> Seq<char> {
        self.path@
    }

    /// The states an iterator can reach between calls.
    pub open spec fn wf(self) -> bool {
        &&& (self.front == State::StartDir && self.back != State::Done
            ==> self.has_physical_root == spec_has_root(self.path@))
        &&& (self.back == State::StartDir ==> self.front == State::Body)
    }

    /// An iterator on which nothing has been consumed yet.
    pub open spec fn is_fresh(self) -> bool {
        self.front == State::StartDir && self.back == State::Body
    }

    pub open spec fn spec_finished(self) -> bool {
        self.front == State::Done || self.back == State::Done || state_idx(self.front) > state_idx(
            self.back,
        )
    }

    /// The components still to be yielded, from either end.
    pub open spec fn remaining(self) -> Seq<CompView> {
        if self.spec_finished() {
            Seq::empty()
        } else {
            rem_from(self.path@, self.front)
        }
    }

    pub fn new(path: &Path<'a>) -> (r: Components<'a>)
        ensures
            r.wf(),
            r.is_fresh(),
            r.path_view() == path@,
            r.has_physical_root == spec_has_root(path@),
            r.remaining() == comps_of(path@),
    {
        let s = path.as_str();
        let n = s.unicode_len();
        let root = n > 0 && s.get_char(0) == SEPERATOR;
        Components { path: s, has_physical_root: root, front: State::StartDir, back: State::Body }
    }

    pub fn has_root(&self) -> (r: bool)
        ensures
            r == self.has_physical_root,
    {
        self.has_physical_root
    }

    fn finished(&self) -> (r: bool)
        ensures
            r == self.spec_finished(),
    {
        match (self.front, self.back) {
            (State::Done, _) => true,
            (_, State::Done) => true,
            (State::Body, State::StartDir) => true,
            _ => false,
        }
    }

    fn include_cur_dir(&self) -> (r: bool)
        requires
            self.has_physical_root == spec_has_root(self.path@),
        ensures
            r == spec_include_cur(self.path@),
    {
        if self.has_physical_root {
            return false;
        }
        let n = self.path.unicode_len();
        if n == 0 {
            return false;
        }
        if self.path.get_char(0) != '.' {
            return false;
        }
        n == 1 || self.path.get_char(1) == SEPERATOR
    }

    fn len_before_body(&self) -> (r: usize)
        requires
            self.front == State::StartDir ==> self.has_physical_root == spec_has_root(self.path@),
        ensures
            r as int == spec_lbb(self.path@, self.front == State::StartDir),
            r as int <= self.path@.len(),
    {
        match self.front {
            State::StartDir => {
                if self.has_physical_root {
                    1
                } else if self.include_cur_dir() {
                    1
                } else {
                    0
                }
            },
            _ => 0,
        }
    }

    /// Parse a component from the left; returns how many characters consuming
    /// it removes.
    fn parse_next_component(&self) -> (r: (usize, Option<Component<'a>>))
        ensures
            ({
                let s = self.path@;
                let j = first_sep(s);
                &&& r.0 as int == if j < s.len() {
                    j + 1
                } else {
                    s.len() as int
                }
                &&& r.0 as int <= s.len()
                &&& opt_view(r.1) == parse_chunk(chunk_of(s))
            }),
    {
        proof {
            lemma_first_sep(self.path@);
            assert(self.path@.skip(0) =~= self.path@);
        }
        let p = self.path;
        let n = p.unicode_len();
        match find_sep(p, 0) {
            Some(i) => {
                let comp = p.substring_char(0, i);
                proof {
                    assert(comp@ =~= chunk_of(p@));
                }
                (i + 1, parse_single_component(comp))
            },
            None => {
                proof {
                    assert(p@ =~= chunk_of(p@));
                }
                (n, parse_single_component(p))
            },
        }
    }

    /// Parse a component from the right; returns how many characters
    /// consuming it removes.
    fn parse_next_component_back(&self) -> (r: (usize, Option<Component<'a>>))
        requires
            self.front == State::StartDir ==> self.has_physical_root == spec_has_root(self.path@),
            self.path@.len() > spec_lbb(self.path@, self.front == State::StartDir),
        ensures
            ({
                let s = self.path@;
                let b = spec_lbb(s, self.front == State::StartDir);
                let t = s.skip(b);
                let k = last_sep(t);
                let chunk = if k >= 0 {
                    t.skip(k + 1)
                } else {
                    t
                };
                &&& r.0 as int == t.len() - if k >= 0 {
                    k
                } else {
                    0
                }
                &&& 0 < r.0 as int <= t.len()
                &&& opt_view(r.1) == parse_chunk(chunk)
            }),
    {
        let start = self.len_before_body();
        let p = self.path;
        let n = p.unicode_len();
        proof {
            lemma_last_sep(p@.skip(start as int));
        }
        match rfind_sep(p, start) {
            Some(i) => {
                let comp = p.substring_char(i + 1, n);
                proof {
                    let t = p@.skip(start as int);
                    let k = last_sep(t);
                    assert(comp@ =~= t.skip(k + 1));
                }
                (n - i, parse_single_component(comp))
            },
            None => {
                let comp = p.substring_char(start, n);
                proof {
                    assert(comp@ =~= p@.skip(start as int));
                }
                (n - start, parse_single_component(comp))
            },
        }
    }

    /// Remove empty and `"."` chunks from the left end.
    fn trim_left(&mut self)
        ensures
            final(self).path@ == trim_left_s(old(self).path@),
            final(self).has_physical_root == old(self).has_physical_root,
            final(self).front == old(self).front,
            final(self).back == old(self).back,
    {
        let ghost s0 = *self;
        loop
            invariant
                s0 == *old(self),
                self.has_physical_root == s0.has_physical_root,
                self.front == s0.front,
                self.back == s0.back,
                trim_left_s(self.path@) == trim_left_s(s0.path@),
            decreases self.path@.len(),
        {
            let n = self.path.unicode_len();
            if n == 0 {
                return ;
            }
            let (size, comp) = self.parse_next_component();
            if comp.is_some() {
                return ;
            }
            let ghost before = self.path@;
            self.path = self.path.substring_char(size, n);
            proof {
                lemma_first_sep(before);
                assert(self.path@ =~= rest_of(before));
            }
        }
    }

    /// Remove empty and `"."` chunks from the right end, leaving the
    /// leading marker alone.
    fn trim_right(&mut self)
        requires
            old(self).front == State::StartDir ==> old(self).has_physical_root == spec_has_root(
                old(self).path@,
            ),
        ensures
            final(self).path@ == trim_right_s(
                old(self).path@,
                old(self).front == State::StartDir,
            ),
            final(self).has_physical_root == old(self).has_physical_root,
            final(self).front == old(self).front,
            final(self).back == old(self).back,
    {
        let ghost s0 = *self;
        loop
            invariant
                s0 == *old(self),
                self.has_physical_root == s0.has_physical_root,
                self.front == s0.front,
                self.back == s0.back,
                self.front == State::StartDir ==> self.has_physical_root == spec_has_root(
                    self.path@,
                ),
                trim_right_s(self.path@, self.front == State::StartDir) == trim_right_s(
                    s0.path@,
                    s0.front == State::StartDir,
                ),
            decreases self.path@.len(),
        {
            let lbb = self.len_before_body();
            let n = self.path.unicode_len();
            if n <= lbb {
                return ;
            }
            let (size, comp) = self.parse_next_component_back();
            if comp.is_some() {
                return ;
            }
            let ghost before = self.path@;
            self.path = self.path.substring_char(0, n - size);
            proof {
                let b = spec_lbb(before, self.front == State::StartDir);
                let t = before.skip(b);
                let k = last_sep(t);
                lemma_last_sep(t);
                assert(self.path@ =~= before.take(
                    b + if k >= 0 {
                        k
                    } else {
                        0
                    },
                ));
                lemma_back_cut(before, self.front == State::StartDir);
            }
        }
    }

    /// The part of the path that has not been iterated over yet, with
    /// dangling separators and `"."` chunks removed from the consumed ends.
    pub fn as_path(&self) -> (r: Path<'a>)
        requires
            self.wf(),
        ensures
            r@ == as_path_s(self.path@, self.front, self.back),
    {
        let mut c = Components {
            path: self.path,
            has_physical_root: self.has_physical_root,
            front: self.front,
            back: self.back,
        };
        if c.front == State::Body {
            c.trim_left();
        }
        if c.back == State::Body {
            c.trim_right();
        }
        Path::new(c.path)
    }

    /// Yield the next component from the left.
    pub fn next(&mut self) -> (r: Option<Component<'a>>)
        requires
            old(self).wf(),
        ensures
            final(self).wf(),
            final(self).back == old(self).back,
            final(self).has_physical_root == old(self).has_physical_root,
            old(self).spec_finished() ==> r is None && *final(self) == *old(self),
            !old(self).spec_finished() ==> ({
                let (ns, rc, nfr) = nf(old(self).path@, old(self).front);
                &&& final(self).path@ == ns
                &&& final(self).front == nfr
                &&& opt_view(r) == rc
            }),
            r is Some ==> final(self).front == State::Body,
            old(self).remaining().len() > 0 ==> opt_view(r) == Some(old(self).remaining()[0])
                && final(self).remaining() == old(self).remaining().drop_first(),
            old(self).remaining().len() == 0 ==> r is None && final(self).remaining() == Seq::<
                CompView,
            >::empty(),
    {
        let ghost s0 = *self;
        loop
            invariant
                s0 == *old(self),
                s0.wf(),
                self.wf(),
                self.back == s0.back,
                self.has_physical_root == s0.has_physical_root,
                s0.spec_finished() ==> *self == s0,
                !s0.spec_finished() ==> self.front != State::StartDir || self.path@ == s0.path@,
                !s0.spec_finished() ==> nf(self.path@, self.front) == nf(s0.path@, s0.front),
            decreases self.path@.len(), 2 - state_idx(self.front),
        {
            if self.finished() {
                proof {
                    if !s0.spec_finished() {
                        lemma_nf(s0.path@, s0.front);
                        assert(self.front == State::Done);
                    }
                }
                return None;
            }
            match self.front {
                State::StartDir => {
                    self.front = State::Body;
                    if self.has_physical_root {
                        let n = self.path.unicode_len();
                        self.path = self.path.substring_char(1, n);
                        proof {
                            assert(self.path@ =~= s0.path@.drop_first());
                            lemma_nf(s0.path@, s0.front);
                        }
                        return Some(Component::RootDir);
                    } else if self.include_cur_dir() {
                        let n = self.path.unicode_len();
                        self.path = self.path.substring_char(1, n);
                        proof {
                            assert(self.path@ =~= s0.path@.drop_first());
                            lemma_nf(s0.path@, s0.front);
                        }
                        return Some(Component::CurDir);
                    }
                },
                State::Body => {
                    let n = self.path.unicode_len();
                    if n != 0 {
                        let ghost before = self.path@;
                        let (size, comp) = self.parse_next_component();
                        self.path = self.path.substring_char(size, n);
                        proof {
                            lemma_first_sep(before);
                            assert(self.path@ =~= rest_of(before));
                        }
                        if comp.is_some() {
                            proof {
                                lemma_nf(s0.path@, s0.front);
                            }
                            return comp;
                        }
                    } else {
                        self.front = State::Done;
                    }
                },
                State::Done => {
                    proof {
                        assert(false);
                    }
                },
            }
        }
    }

    /// Yield the next component from the right.
    pub fn next_back(&mut self) -> (r: Option<Component<'a>>)
        requires
            old(self).wf(),
        ensures
            final(self).wf(),
            final(self).front == old(self).front,
            final(self).has_physical_root == old(self).has_physical_root,
            old(self).spec_finished() ==> r is None && *final(self) == *old(self),
            !old(self).spec_finished() ==> ({
                let (ns, rc, nback) = nb(old(self).path@, old(self).front == State::StartDir);
                &&& final(self).path@ == ns
                &&& final(self).back == nback
                &&& opt_view(r) == rc
            }),
            old(self).remaining().len() > 0 ==> opt_view(r) == Some(old(self).remaining().last())
                && final(self).remaining() == old(self).remaining().drop_last(),
            old(self).remaining().len() == 0 ==> r is None && final(self).remaining() == Seq::<
                CompView,
            >::empty(),
    {
        let ghost s0 = *self;
        loop
            invariant
                s0 == *old(self),
                s0.wf(),
                self.front == s0.front,
                self.has_physical_root == s0.has_physical_root,
                s0.spec_finished() ==> *self == s0 && self.wf(),
                !s0.spec_finished() ==> ({
                    &&& s0.back == State::Body
                    &&& (self.front == State::StartDir && self.back != State::Done
                        ==> self.has_physical_root == spec_has_root(self.path@))
                    &&& (self.back == State::StartDir ==> self.path@.len() <= spec_lbb(
                        self.path@,
                        self.front == State::StartDir,
                    ))
                    &&& (self.back == State::Done ==> nb(s0.path@, s0.front == State::StartDir)
                        == (self.path@, Option::<CompView>::None, State::Done))
                    &&& (self.back != State::Done ==> nb(
                        self.path@,
                        self.front == State::StartDir,
                    ) == nb(s0.path@, s0.front == State::StartDir))
                }),
            decreases self.path@.len(), back_rank(self.back),
        {
            if self.finished() {
                proof {
                    if !s0.spec_finished() {
                        // reachable only with the body exhausted: either the
                        // front is already past a marker, or there was none
                        lemma_nb(s0.path@, s0.front == State::StartDir);
                    }
                }
                return None;
            }
            let lbb = self.len_before_body();
            match self.back {
                State::Body => {
                    let n = self.path.unicode_len();
                    if n > lbb {
                        let ghost before = self.path@;
                        let (size, comp) = self.parse_next_component_back();
                        self.path = self.path.substring_char(0, n - size);
                        proof {
                            let b = spec_lbb(before, self.front == State::StartDir);
                            let t = before.skip(b);
                            let k = last_sep(t);
                            lemma_last_sep(t);
                            assert(self.path@ =~= before.take(
                                b + if k >= 0 {
                                    k
                                } else {
                                    0
                                },
                            ));
                            lemma_back_cut(before, self.front == State::StartDir);
                        }
                        if comp.is_some() {
                            proof {
                                lemma_nb(s0.path@, s0.front == State::StartDir);
                            }
                            return comp;
                        }
                    } else {
                        self.back = State::StartDir;
                    }
                },
                State::StartDir => {
                    self.back = State::Done;
                    if self.has_physical_root {
                        let n = self.path.unicode_len();
                        self.path = self.path.substring_char(0, n - 1);
                        proof {
                            lemma_nb(s0.path@, s0.front == State::StartDir);
                        }
                        return Some(Component::RootDir);
                    } else if self.include_cur_dir() {
                        let n = self.path.unicode_len();
                        self.path = self.path.substring_char(0, n - 1);
                        proof {
                            lemma_nb(s0.path@, s0.front == State::StartDir);
                        }
                        return Some(Component::CurDir);
                    }
                },
                State::Done => {
                    proof {
                        assert(false);
                    }
                },
            }
        }
    }
}

} // verus!
