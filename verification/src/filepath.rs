//! Lexical path handling: the platform separator, volume-prefix detection,
//! slash conversion, and the `clean` normalization routine.
//!
//! Cleaning is purely lexical: two spellings of the same place, such as
//! `src`, `./src` and `src/`, clean to one canonical string without ever
//! touching the filesystem.

use vstd::prelude::*;

pub mod linux;
pub mod unix;
pub mod windows;

verus! {

// ---------------------------------------------------------------------------
// Specification of lexical cleaning.
//
// A path is modelled as the sequence of its characters. Cleaning is split
// into three mathematical stages:
//   1. `path_elems` cuts the path into its elements: maximal runs of
//      non-separator characters, with empty runs and `.` elements dropped;
//   2. `norm_elems` folds the elements over a stack, resolving each `..`
//      against the element before it (or keeping it, for a relative path
//      that climbs past its start; or dropping it, at the root);
//   3. `render` prints the stack back as a path string.
// ---------------------------------------------------------------------------

/// One parsed element: an empty run or a `.` element vanishes, anything
/// else stands by itself.
pub open spec fn emit_segment(cur: Seq<char>) -> Seq<Seq<char>> {
    if cur.len() == 0 || cur == seq!['.'] {
        Seq::empty()
    } else {
        seq![cur]
    }
}

/// The elements of `s` from position `i` on, `cur` being the partial
/// element read so far.
pub open spec fn raw_elems(s: Seq<char>, i: int, cur: Seq<char>) -> Seq<Seq<char>>
    decreases s.len() - i,
{
    if i < 0 || i >= s.len() {
        emit_segment(cur)
    } else if s[i] == '/' {
        emit_segment(cur) + raw_elems(s, i + 1, Seq::empty())
    } else {
        raw_elems(s, i + 1, cur.push(s[i]))
    }
}

/// The elements of the whole path `s`: non-empty, non-`.` runs between
/// separators.
pub open spec fn path_elems(s: Seq<char>) -> Seq<Seq<char>> {
    raw_elems(s, 0, Seq::empty())
}

/// How one element lands on the stack: `..` removes the element before it
/// when that element is itself not a `..`; at the root a spare `..` is
/// dropped, in a relative path it is kept; every other element is pushed.
pub open spec fn norm_step(rooted: bool, st: Seq<Seq<char>>, e: Seq<char>) -> Seq<Seq<char>> {
    if e == seq!['.', '.'] {
        if st.len() > 0 && st.last() != seq!['.', '.'] {
            st.drop_last()
        } else if rooted {
            st
        } else {
            st.push(e)
        }
    } else {
        st.push(e)
    }
}

/// Folds `elems` over `st`, element by element.
pub open spec fn norm_elems(rooted: bool, st: Seq<Seq<char>>, elems: Seq<Seq<char>>) -> Seq<
    Seq<char>,
>
    decreases elems.len(),
{
    if elems.len() == 0 {
        st
    } else {
        norm_elems(rooted, norm_step(rooted, st, elems[0]), elems.drop_first())
    }
}

/// The elements of the stack joined with `/` between them.
pub open spec fn join_elems(st: Seq<Seq<char>>) -> Seq<char>
    decreases st.len(),
{
    if st.len() == 0 {
        Seq::empty()
    } else if st.len() == 1 {
        st[0]
    } else {
        st[0] + seq!['/'] + join_elems(st.drop_first())
    }
}

/// Prints the normalized stack: an empty stack is the root `/` or the
/// current directory `.`, a rooted path keeps its leading separator.
pub open spec fn render(rooted: bool, st: Seq<Seq<char>>) -> Seq<char> {
    if st.len() == 0 {
        if rooted {
            seq!['/']
        } else {
            seq!['.']
        }
    } else if rooted {
        seq!['/'] + join_elems(st)
    } else {
        join_elems(st)
    }
}

/// Whether `s` is rooted: it begins with the separator.
pub open spec fn rooted_path(s: Seq<char>) -> bool {
    s.len() > 0 && s[0] == '/'
}

/// The canonical form of the path `s`.
pub open spec fn clean_spec(s: Seq<char>) -> Seq<char> {
    render(rooted_path(s), norm_elems(rooted_path(s), Seq::empty(), path_elems(s)))
}

// ---------------------------------------------------------------------------
// Lemmas that carry the element-by-element scan of `clean`.
// ---------------------------------------------------------------------------

/// A separator at `i` contributes no element of its own.
proof fn lemma_elems_skip_sep(s: Seq<char>, i: int)
    requires
        0 <= i < s.len(),
        s[i] == '/',
    ensures
        raw_elems(s, i, Seq::empty()) == raw_elems(s, i + 1, Seq::empty()),
{
    assert(emit_segment(Seq::empty()) + raw_elems(s, i + 1, Seq::empty()) =~= raw_elems(
        s,
        i + 1,
        Seq::empty(),
    ));
}

/// Reading the non-separator run `[i, b)` on top of the partial element
/// `cur` yields one element and continues at `b`.
proof fn lemma_elems_run(s: Seq<char>, i: int, b: int, cur: Seq<char>)
    requires
        0 <= i <= b <= s.len(),
        forall|k: int| i <= k < b ==> s[k] != '/',
        b == s.len() || s[b] == '/',
    ensures
        raw_elems(s, i, cur) == emit_segment(cur + s.subrange(i, b)) + raw_elems(
            s,
            b,
            Seq::empty(),
        ),
    decreases b - i,
{
    if i == b {
        assert(cur + s.subrange(i, b) =~= cur);
        if b >= s.len() {
            assert(raw_elems(s, b, Seq::empty()) =~= Seq::<Seq<char>>::empty());
            assert(emit_segment(cur) + Seq::<Seq<char>>::empty() =~= emit_segment(cur));
        } else {
            assert(raw_elems(s, b, Seq::empty()) == emit_segment(Seq::empty()) + raw_elems(
                s,
                b + 1,
                Seq::empty(),
            ));
        }
    } else {
        lemma_elems_run(s, i + 1, b, cur.push(s[i]));
        assert(cur.push(s[i]) + s.subrange(i + 1, b) =~= cur + s.subrange(i, b));
    }
}

/// Past the end of the path there are no elements left.
proof fn lemma_elems_end(s: Seq<char>)
    ensures
        raw_elems(s, s.len() as int, Seq::empty()) == Seq::<Seq<char>>::empty(),
{
    assert(raw_elems(s, s.len() as int, Seq::empty()) =~= Seq::<Seq<char>>::empty());
}

/// Consuming the first element of a non-empty element list is one fold
/// step.
proof fn lemma_norm_unfold(rooted: bool, st: Seq<Seq<char>>, e: Seq<char>, rest: Seq<Seq<char>>)
    ensures
        norm_elems(rooted, st, seq![e] + rest) == norm_elems(rooted, norm_step(rooted, st, e), rest),
{
    let elems = seq![e] + rest;
    assert(elems[0] == e);
    assert(elems.drop_first() =~= rest);
}

/// Appending one element to the stack appends `/` and the element to the
/// joined string (or starts it, when the stack was empty).
proof fn lemma_join_push(st: Seq<Seq<char>>, e: Seq<char>)
    ensures
        join_elems(st.push(e)) == if st.len() == 0 {
            e
        } else {
            join_elems(st) + seq!['/'] + e
        },
    decreases st.len(),
{
    if st.len() == 0 {
        assert(st.push(e).len() == 1);
        assert(st.push(e)[0] == e);
    } else {
        lemma_join_push(st.drop_first(), e);
        assert(st.push(e).drop_first() =~= st.drop_first().push(e));
        assert(st.push(e)[0] == st[0]);
        if st.len() == 1 {
            assert(st.drop_first().len() == 0);
            assert(join_elems(st.push(e)) == st[0] + seq!['/'] + e);
            assert(join_elems(st) == st[0]);
        } else {
            assert(join_elems(st.push(e)) == st[0] + seq!['/'] + (join_elems(st.drop_first())
                + seq!['/'] + e));
            assert(join_elems(st) == st[0] + seq!['/'] + join_elems(st.drop_first()));
            assert(st[0] + seq!['/'] + (join_elems(st.drop_first()) + seq!['/'] + e) =~= (st[0]
                + seq!['/'] + join_elems(st.drop_first())) + seq!['/'] + e);
        }
    }
}

// ---------------------------------------------------------------------------
// Idempotence: cleaning a cleaned path changes nothing.
// ---------------------------------------------------------------------------

/// A well-formed element: non-empty, not `.`, and free of separators.
pub open spec fn elem_ok(e: Seq<char>) -> bool {
    &&& e.len() > 0
    &&& e != seq!['.']
    &&& forall|k: int| 0 <= k < e.len() ==> e[k] != '/'
}

/// Every element of `es` is well-formed.
pub open spec fn elems_ok(es: Seq<Seq<char>>) -> bool {
    forall|t: int| 0 <= t < es.len() ==> elem_ok(#[trigger] es[t])
}

/// A normalized stack: well-formed elements, no `..` at all when rooted,
/// and otherwise all `..` elements at the front.
pub open spec fn stack_ok(rooted: bool, st: Seq<Seq<char>>) -> bool {
    &&& elems_ok(st)
    &&& if rooted {
        forall|t: int| 0 <= t < st.len() ==> #[trigger] st[t] != seq!['.', '.']
    } else {
        forall|t: int, u: int|
            0 <= t < u < st.len() && #[trigger] st[u] == seq!['.', '.'] ==> #[trigger] st[t]
                == seq!['.', '.']
    }
}

/// Parsing yields only well-formed elements.
proof fn lemma_raw_elems_ok(s: Seq<char>, i: int, cur: Seq<char>)
    requires
        forall|k: int| 0 <= k < cur.len() ==> cur[k] != '/',
    ensures
        elems_ok(raw_elems(s, i, cur)),
    decreases s.len() - i,
{
    if i < 0 || i >= s.len() {
    } else if s[i] == '/' {
        lemma_raw_elems_ok(s, i + 1, Seq::empty());
        let es = emit_segment(cur) + raw_elems(s, i + 1, Seq::empty());
        assert forall|t: int| 0 <= t < es.len() implies elem_ok(#[trigger] es[t]) by {
            if t >= emit_segment(cur).len() {
                assert(es[t] == raw_elems(s, i + 1, Seq::empty())[t - emit_segment(cur).len()]);
            }
        }
    } else {
        assert(forall|k: int|
            0 <= k < cur.push(s[i]).len() ==> #[trigger] cur.push(s[i])[k] != '/');
        lemma_raw_elems_ok(s, i + 1, cur.push(s[i]));
    }
}

/// Folding well-formed elements over a normalized stack leaves it
/// normalized.
proof fn lemma_norm_ok(rooted: bool, st: Seq<Seq<char>>, elems: Seq<Seq<char>>)
    requires
        stack_ok(rooted, st),
        elems_ok(elems),
    ensures
        stack_ok(rooted, norm_elems(rooted, st, elems)),
    decreases elems.len(),
{
    if elems.len() == 0 {
    } else {
        let e = elems[0];
        let st2 = norm_step(rooted, st, e);
        assert(elem_ok(e));
        if e == seq!['.', '.'] {
            if st.len() > 0 && st.last() != seq!['.', '.'] {
                assert(st2 == st.drop_last());
                assert(stack_ok(rooted, st2)) by {
                    assert(forall|t: int|
                        0 <= t < st2.len() ==> #[trigger] st2[t] == st[t]);
                }
            } else if rooted {
            } else {
                assert(st2 == st.push(e));
                assert(stack_ok(rooted, st2)) by {
                    assert forall|t: int, u: int|
                        0 <= t < u < st2.len() && #[trigger] st2[u] == seq!['.', '.']
                            implies #[trigger] st2[t] == seq!['.', '.'] by {
                        if u == st2.len() - 1 {
                            if st.len() > 0 {
                                assert(st.last() == seq!['.', '.']);
                                if t < st.len() - 1 {
                                    assert(st[t] == seq!['.', '.']);
                                }
                            }
                        }
                    }
                }
            }
        } else {
            assert(st2 == st.push(e));
            assert(stack_ok(rooted, st2)) by {
                if !rooted {
                    assert forall|t: int, u: int|
                        0 <= t < u < st2.len() && #[trigger] st2[u] == seq!['.', '.']
                            implies #[trigger] st2[t] == seq!['.', '.'] by {
                        assert(u < st.len());
                    }
                }
            }
        }
        assert(elems_ok(elems.drop_first())) by {
            assert(forall|t: int|
                0 <= t < elems.drop_first().len() ==> #[trigger] elems.drop_first()[t]
                    == elems[t + 1]);
        }
        lemma_norm_ok(rooted, st2, elems.drop_first());
    }
}

/// Parsing does not look past the starting position.
proof fn lemma_elems_suffix(s: Seq<char>, i: int, cur: Seq<char>)
    requires
        0 <= i <= s.len(),
    ensures
        raw_elems(s, i, cur) == raw_elems(s.skip(i), 0, cur),
    decreases s.len() - i,
{
    let tail = s.skip(i);
    if i == s.len() {
        assert(tail.len() == 0);
    } else {
        assert(tail[0] == s[i]);
        if s[i] == '/' {
            lemma_elems_suffix(s, i + 1, Seq::empty());
            lemma_elems_suffix(tail, 1, Seq::empty());
            assert(tail.skip(1) =~= s.skip(i + 1));
        } else {
            lemma_elems_suffix(s, i + 1, cur.push(s[i]));
            lemma_elems_suffix(tail, 1, cur.push(s[i]));
            assert(tail.skip(1) =~= s.skip(i + 1));
        }
    }
}

/// Parsing the joined form of well-formed elements gives them back.
proof fn lemma_parse_join(st: Seq<Seq<char>>)
    requires
        elems_ok(st),
        st.len() > 0,
    ensures
        raw_elems(join_elems(st), 0, Seq::empty()) == st,
    decreases st.len(),
{
    let s = join_elems(st);
    let e = st[0];
    assert(elem_ok(e));
    if st.len() == 1 {
        assert(s == e);
        lemma_elems_run(s, 0, s.len() as int, Seq::empty());
        assert(Seq::<char>::empty() + s.subrange(0, s.len() as int) =~= s);
        lemma_elems_end(s);
        assert(emit_segment(s) =~= seq![e]);
        assert(seq![e] + Seq::<Seq<char>>::empty() =~= st);
    } else {
        let rest = join_elems(st.drop_first());
        assert(s == e + seq!['/'] + rest);
        let b = e.len() as int;
        assert(forall|k: int| 0 <= k < b ==> s[k] == e[k]);
        assert(s[b] == '/');
        lemma_elems_run(s, 0, b, Seq::empty());
        assert(Seq::<char>::empty() + s.subrange(0, b) =~= e);
        lemma_elems_skip_sep(s, b);
        lemma_elems_suffix(s, b + 1, Seq::empty());
        assert(s.skip(b + 1) =~= rest);
        assert(elems_ok(st.drop_first())) by {
            assert(forall|t: int|
                0 <= t < st.drop_first().len() ==> #[trigger] st.drop_first()[t] == st[t + 1]);
        }
        lemma_parse_join(st.drop_first());
        assert(emit_segment(e) =~= seq![e]);
        assert(seq![e] + st.drop_first() =~= st);
    }
}

/// Rendering then parsing a normalized stack is the identity, and keeps
/// rootedness.
proof fn lemma_render_parse(rooted: bool, st: Seq<Seq<char>>)
    requires
        stack_ok(rooted, st),
    ensures
        rooted_path(render(rooted, st)) == rooted,
        path_elems(render(rooted, st)) == st,
{
    let r = render(rooted, st);
    if st.len() == 0 {
        if rooted {
            assert(r == seq!['/']);
            assert(rooted_path(r));
            lemma_elems_skip_sep(r, 0);
            lemma_elems_end(r);
        } else {
            assert(r == seq!['.']);
            assert(!rooted_path(r));
            assert(raw_elems(r, 0, Seq::empty()) == raw_elems(r, 1, Seq::empty().push('.')))
                by {
                assert(r[0] == '.');
            }
            assert(Seq::<char>::empty().push('.') =~= seq!['.']);
            assert(emit_segment(seq!['.']) =~= Seq::<Seq<char>>::empty());
        }
    } else {
        let j = join_elems(st);
        assert(elem_ok(st[0]));
        assert(join_starts_with_first(st)) by {
            lemma_join_first(st);
        }
        if rooted {
            assert(r == seq!['/'] + j);
            assert(r[0] == '/');
            lemma_elems_skip_sep(r, 0);
            lemma_elems_suffix(r, 1, Seq::empty());
            assert(r.skip(1) =~= j);
            lemma_parse_join(st);
        } else {
            assert(r == j);
            assert(r[0] == st[0][0]);
            assert(r[0] != '/');
            lemma_parse_join(st);
        }
    }
}

/// The joined string starts with the first element.
pub open spec fn join_starts_with_first(st: Seq<Seq<char>>) -> bool {
    st.len() > 0 ==> join_elems(st).len() >= st[0].len() && forall|k: int|
        0 <= k < st[0].len() ==> join_elems(st)[k] == st[0][k]
}

proof fn lemma_join_first(st: Seq<Seq<char>>)
    ensures
        join_starts_with_first(st),
{
    if st.len() > 1 {
        assert(join_elems(st) == st[0] + seq!['/'] + join_elems(st.drop_first()));
    }
}

/// Folding an already normalized stack builds it back unchanged.
proof fn lemma_norm_id(rooted: bool, acc: Seq<Seq<char>>, rest: Seq<Seq<char>>)
    requires
        stack_ok(rooted, acc + rest),
    ensures
        norm_elems(rooted, acc, rest) == acc + rest,
    decreases rest.len(),
{
    let whole = acc + rest;
    if rest.len() == 0 {
        assert(acc + rest =~= acc);
    } else {
        let e = rest[0];
        assert(e == whole[acc.len() as int]);
        assert(elem_ok(e));
        let st2 = norm_step(rooted, acc, e);
        if e == seq!['.', '.'] {
            if rooted {
                assert(whole[acc.len() as int] != seq!['.', '.']);
                assert(false);
            }
            if acc.len() > 0 && acc.last() != seq!['.', '.'] {
                assert(acc.last() == whole[acc.len() - 1]);
                assert(whole[acc.len() - 1] == seq!['.', '.']);
                assert(false);
            }
            assert(st2 == acc.push(e));
        } else {
            assert(st2 == acc.push(e));
        }
        assert(acc.push(e) + rest.drop_first() =~= acc + rest);
        lemma_norm_id(rooted, acc.push(e), rest.drop_first());
    }
}

/// Cleaning is idempotent: a cleaned path cleans to itself.
pub proof fn lemma_clean_idempotent(s: Seq<char>)
    ensures
        clean_spec(clean_spec(s)) == clean_spec(s),
{
    let ro = rooted_path(s);
    let st = norm_elems(ro, Seq::empty(), path_elems(s));
    lemma_raw_elems_ok(s, 0, Seq::empty());
    assert(stack_ok(ro, Seq::empty()));
    lemma_norm_ok(ro, Seq::empty(), path_elems(s));
    let r = render(ro, st);
    lemma_render_parse(ro, st);
    assert(Seq::<Seq<char>>::empty() + st =~= st);
    lemma_norm_id(ro, Seq::empty(), st);
    assert(clean_spec(r) == render(ro, norm_elems(ro, Seq::empty(), st)));
    assert(norm_elems(ro, Seq::empty(), st) == st);
}

/// The views of a stack of borrowed strings.
pub open spec fn views_of(st: Seq<&str>) -> Seq<Seq<char>> {
    Seq::new(st.len(), |k: int| st[k]@)
}

/// Whether `t` is exactly the element `..`.
fn str_is_dotdot(t: &str) -> (r: bool)
    ensures
        r == (t@ == seq!['.', '.']),
{
    proof {
        if t@.len() == 2 && t@[0] == '.' && t@[1] == '.' {
            assert(t@ =~= seq!['.', '.']);
        }
    }
    let n = t.unicode_len();
    n == 2 && t.get_char(0) == '.' && t.get_char(1) == '.'
}

/// Lexically normalizes `path` without touching the filesystem.
///
/// The rules: consecutive separators collapse; `.` elements vanish; `..`
/// removes the element before it, never climbing above the root, while a
/// relative path keeps the `..` elements it cannot resolve; a trailing
/// separator goes unless the whole result is the root; the empty path
/// cleans to `.`. On this platform no path carries a volume prefix, so
/// the whole string takes part in element-wise cleaning.
pub fn clean(path: &str) -> (r: String)
    ensures
        r@ == clean_spec(path@),
{
    let ghost s = path@;
    let vol: usize = volume_name_len(path);
    let n: usize = path.unicode_len();
    let rooted: bool = n > 0 && path.get_char(0) == '/';
    let mut stack: Vec<&str> = Vec::new();
    proof {
        assert(views_of(stack@) =~= Seq::<Seq<char>>::empty());
    }
    // element-wise cleaning starts past the (empty) volume prefix
    let mut i: usize = vol;
    while i < n
        invariant
            path@ == s,
            n == s.len(),
            i <= n,
            rooted == rooted_path(s),
            norm_elems(rooted, views_of(stack@), raw_elems(s, i as int, Seq::empty()))
                == norm_elems(rooted, Seq::empty(), path_elems(s)),
        decreases n - i,
    {
        let c = path.get_char(i);
        if c == '/' {
            proof {
                lemma_elems_skip_sep(s, i as int);
            }
            i += 1;
        } else {
            let start: usize = i;
            let mut j: usize = i + 1;
            while j < n && path.get_char(j) != '/'
                invariant
                    path@ == s,
                    n == s.len(),
                    start < j <= n,
                    forall|k: int| start <= k < j ==> s[k] != '/',
                decreases n - j,
            {
                j += 1;
            }
            let ghost seg = s.subrange(start as int, j as int);
            proof {
                lemma_elems_run(s, start as int, j as int, Seq::empty());
                assert(Seq::empty() + seg =~= seg);
            }
            let seg_is_dot = j - start == 1 && c == '.';
            let seg_is_dotdot = j - start == 2 && c == '.' && path.get_char(start + 1) == '.';
            proof {
                assert(seg.len() == j - start);
                assert(seg[0] == c);
                if seg_is_dot {
                    assert(seg =~= seq!['.']);
                } else {
                    assert(seg != seq!['.']) by {
                        if seg == seq!['.'] {
                            assert(seg.len() == seq!['.'].len());
                            assert(seg[0] == seq!['.'][0]);
                        }
                    }
                }
                if seg_is_dotdot {
                    assert(seg =~= seq!['.', '.']);
                } else {
                    assert(seg != seq!['.', '.']) by {
                        if seg == seq!['.', '.'] {
                            assert(seg.len() == seq!['.', '.'].len());
                            assert(seg[0] == seq!['.', '.'][0]);
                            assert(seg[1] == seq!['.', '.'][1]);
                            assert(seg[1] == s[start + 1]);
                        }
                    }
                }
            }
            if seg_is_dot {
                proof {
                    assert(emit_segment(seg) =~= Seq::<Seq<char>>::empty());
                    assert(emit_segment(seg) + raw_elems(s, j as int, Seq::empty()) =~= raw_elems(
                        s,
                        j as int,
                        Seq::empty(),
                    ));
                }
            } else {
                let ghost old_stack = views_of(stack@);
                let ghost rest = raw_elems(s, j as int, Seq::empty());
                proof {
                    assert(emit_segment(seg) =~= seq![seg]);
                    lemma_norm_unfold(rooted, old_stack, seg, rest);
                }
                if seg_is_dotdot {
                    if stack.len() > 0 && !str_is_dotdot(stack[stack.len() - 1]) {
                        proof {
                            assert(old_stack.last() == stack@[stack@.len() - 1]@);
                        }
                        let _dropped = stack.pop();
                        proof {
                            assert(views_of(stack@) =~= old_stack.drop_last());
                            assert(norm_step(rooted, old_stack, seg) == old_stack.drop_last());
                        }
                    } else if rooted {
                        proof {
                            assert(views_of(stack@) =~= norm_step(rooted, old_stack, seg));
                        }
                    } else {
                        stack.push("..");
                        proof {
                            reveal_strlit("..");
                            assert(".."@ =~= seq!['.', '.']);
                            assert(views_of(stack@) =~= norm_step(rooted, old_stack, seg));
                        }
                    }
                } else {
                    let seg_str = path.substring_char(start, j);
                    stack.push(seg_str);
                    proof {
                        assert(views_of(stack@) =~= norm_step(rooted, old_stack, seg));
                    }
                }
            }
            i = j;
        }
    }
    proof {
        lemma_elems_end(s);
    }
    let ghost final_stack = views_of(stack@);
    assert(final_stack == norm_elems(rooted, Seq::empty(), path_elems(s)));
    let mut out = String::new();
    proof {
        reveal_strlit("/");
        assert("/"@ =~= seq!['/']);
        assert(join_elems(final_stack.take(0)) == Seq::<char>::empty());
    }
    if rooted {
        out.append("/");
        proof {
            assert(out@ =~= seq!['/'] + join_elems(final_stack.take(0)));
        }
    }
    let mut k: usize = 0;
    while k < stack.len()
        invariant
            stack@.len() == final_stack.len(),
            views_of(stack@) == final_stack,
            k <= stack.len(),
            rooted ==> out@ == seq!['/'] + join_elems(final_stack.take(k as int)),
            !rooted ==> out@ == join_elems(final_stack.take(k as int)),
            "/"@ == seq!['/'],
        decreases stack.len() - k,
    {
        if k > 0 {
            out.append("/");
        }
        out.append(stack[k]);
        proof {
            let prefix = final_stack.take(k as int);
            lemma_join_push(prefix, final_stack[k as int]);
            assert(prefix.push(final_stack[k as int]) =~= final_stack.take(k as int + 1));
            assert(stack@[k as int]@ == final_stack[k as int]);
            if rooted {
                assert(out@ =~= seq!['/'] + join_elems(final_stack.take(k as int + 1)));
            } else {
                assert(out@ =~= join_elems(final_stack.take(k as int + 1)));
            }
        }
        k += 1;
    }
    proof {
        assert(final_stack.take(final_stack.len() as int) =~= final_stack);
    }
    if stack.len() == 0 {
        if !rooted {
            out.append(".");
            proof {
                reveal_strlit(".");
                assert("."@ =~= seq!['.']);
                assert(out@ =~= seq!['.']);
            }
        } else {
            assert(out@ =~= seq!['/']);
        }
    }
    proof {
        assert(out@ == render(rooted, final_stack));
    }
    out
}

/// The path separator of the platform this build targets (a POSIX-like
/// system).
pub fn os_separator() -> (c: char)
    ensures
        c == '/',
{
    unix::PATH_SEPARATOR
}

/// Whether `c` separates path elements on this platform.
pub fn is_path_separator(c: char) -> (r: bool)
    ensures
        r == (c == '/'),
{
    unix::is_path_separator(c)
}

/// Length in characters of the leading volume name of `path`. Volumes
/// (drive letters, UNC shares) exist only on volume-aware platforms; on
/// this platform every path is volume-free.
pub fn volume_name_len(path: &str) -> (n: usize)
    ensures
        n == 0,
{
    let _ = path;
    unix::volume_name_len(path)
}

/// Rewrites forward slashes to the platform separator. The separator of
/// this platform is `/` itself, so the path comes back unchanged.
pub fn from_slash(path: &str) -> (r: String)
    ensures
        r@ == path@,
{
    path.to_owned()
}

} // verus!
