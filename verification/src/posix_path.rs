//! The parent of a remote path, as `std::path::Path::parent` computes it on
//! Unix: the path without its last component and the separators and `.`
//! components before it.

use crate::text::{chars_of, string_of};
use vstd::prelude::*;

verus! {

/// The path starts at the root directory.
pub open spec fn starts_at_root(p: Seq<char>) -> bool {
    p.len() > 0 && p[0] == '/'
}

/// The path starts with a `.` component, which `Path` keeps.
pub open spec fn starts_at_cur_dir(p: Seq<char>) -> bool {
    !starts_at_root(p) && p.len() > 0 && p[0] == '.' && (p.len() == 1 || p[1] == '/')
}

/// Where the components after the root or leading `.` begin.
pub open spec fn body_start(p: Seq<char>) -> nat {
    (if starts_at_root(p) {
        1nat
    } else {
        0nat
    }) + (if starts_at_cur_dir(p) {
        1nat
    } else {
        0nat
    })
}

/// The number of characters at the end of `s` that differ from `c`.
pub open spec fn trailing_other(s: Seq<char>, c: char) -> nat
    decreases s.len(),
{
    if s.len() > 0 && s.last() != c {
        1 + trailing_other(s.drop_last(), c)
    } else {
        0
    }
}

/// No more characters trail than the text holds.
pub proof fn lemma_trailing_other_bound(s: Seq<char>, c: char)
    ensures
        trailing_other(s, c) <= s.len(),
    decreases s.len(),
{
    if s.len() > 0 && s.last() != c {
        lemma_trailing_other_bound(s.drop_last(), c);
    }
}

proof fn lemma_trailing_other(s: Seq<char>, c: char, n: int)
    requires
        0 <= n <= s.len(),
        forall|i: int| s.len() - n <= i < s.len() ==> #[trigger] s[i] != c,
        n == s.len() || s[s.len() - n - 1] == c,
    ensures
        trailing_other(s, c) == n,
    decreases n,
{
    if n > 0 {
        let t = s.drop_last();
        assert forall|i: int| t.len() - (n - 1) <= i < t.len() implies #[trigger] t[i] != c by {
            assert(t[i] == s[i]);
        }
        if n - 1 < t.len() {
            assert(t[t.len() - (n - 1) - 1] == s[s.len() - n - 1]);
        }
        lemma_trailing_other(t, c, n - 1);
    }
}

/// The last component of `p`: what follows the last `/` after `start`.
pub open spec fn last_component(p: Seq<char>, start: nat) -> Seq<char> {
    let body = p.skip(start as int);
    body.skip(body.len() - trailing_other(body, '/'))
}

/// How much of `p` the last component takes, with the `/` before it.
pub open spec fn last_component_size(p: Seq<char>, start: nat) -> nat {
    let body = p.skip(start as int);
    let t = trailing_other(body, '/');
    if t < body.len() {
        t + 1
    } else {
        t
    }
}

/// Components that `Path` passes over: empty ones and `.`.
pub open spec fn is_passed_over(comp: Seq<char>) -> bool {
    comp.len() == 0 || comp == seq!['.']
}

/// `p` without trailing empty and `.` components.
pub open spec fn trim_back(p: Seq<char>, start: nat) -> Seq<char>
    decreases p.len(),
{
    if p.len() > start {
        proof {
            lemma_trailing_other_bound(p.skip(start as int), '/');
        }
        if is_passed_over(last_component(p, start)) {
            trim_back(p.take(p.len() - last_component_size(p, start)), start)
        } else {
            p
        }
    } else {
        p
    }
}

/// The parent of `p` once the components after `start` are read from the back.
pub open spec fn parent_from(p: Seq<char>, start: nat, cur_dir: bool) -> Option<Seq<char>>
    decreases p.len(),
{
    if p.len() > start {
        proof {
            lemma_trailing_other_bound(p.skip(start as int), '/');
        }
        let rest = p.take(p.len() - last_component_size(p, start));
        if is_passed_over(last_component(p, start)) {
            parent_from(rest, start, cur_dir)
        } else {
            Some(trim_back(rest, start))
        }
    } else if cur_dir {
        Some(p.take(p.len() - 1))
    } else {
        None
    }
}

/// What `Path::new(p).parent()` gives on Unix.
pub open spec fn path_parent(p: Seq<char>) -> Option<Seq<char>> {
    parent_from(p, body_start(p), starts_at_cur_dir(p))
}

/// The directory `ensure_remote_parent_dir` creates for a remote path: its
/// parent, or `.` when it has none.
pub open spec fn remote_parent(p: Seq<char>) -> Seq<char> {
    match path_parent(p) {
        Some(q) => q,
        None => seq!['.'],
    }
}

/// The start of the last component of `s[..end]` and its size with its separator.
fn last_component_of(s: &[char], start: usize, end: usize) -> (bounds: (usize, usize))
    requires
        start < end <= s@.len(),
    ensures
        start <= bounds.0 <= end,
        s@.subrange(bounds.0 as int, end as int) == last_component(s@.take(end as int), start as nat),
        bounds.1 == last_component_size(s@.take(end as int), start as nat),
        0 < bounds.1 <= end - start,
        end - bounds.1 >= start,
{
    let mut i = end;
    while i > start && s[i - 1] != '/'
        invariant
            start <= i <= end <= s@.len(),
            forall|k: int| i <= k < end ==> #[trigger] s@[k] != '/',
        decreases i,
    {
        i = i - 1;
    }
    let ghost body = s@.take(end as int).skip(start as int);
    proof {
        assert(body =~= s@.subrange(start as int, end as int));
        assert forall|k: int| body.len() - (end - i) <= k < body.len() implies #[trigger] body[k]
            != '/' by {
            assert(body[k] == s@[start + k]);
        }
        if i > start {
            assert(body[body.len() - (end - i) - 1] == s@[i - 1]);
        }
        lemma_trailing_other(body, '/', end - i);
        assert(body.skip(body.len() - (end - i)) =~= s@.subrange(i as int, end as int));
    }
    let size = if i > start {
        end - i + 1
    } else {
        end - i
    };
    (i, size)
}

/// The parent directory to create before copying a file to a remote path.
pub fn remote_parent_dir(remote_path: &str) -> (dir: String)
    ensures
        dir@ == remote_parent(remote_path@),
{
    match path_parent_of(remote_path) {
        Some(parent) => parent,
        None => {
            let mut dot = String::new();
            dot.push('.');
            dot
        },
    }
}

/// The parent of a path, as `Path::parent` gives it on Unix.
pub fn path_parent_of(remote_path: &str) -> (parent: Option<String>)
    ensures
        parent is None ==> path_parent(remote_path@) is None,
        parent matches Some(q) ==> path_parent(remote_path@) == Some(q@),
{
    let s = chars_of(remote_path);
    let root = s.len() > 0 && s[0] == '/';
    let cur_dir = !root && s.len() > 0 && s[0] == '.' && (s.len() == 1 || s[1] == '/');
    let start: usize = (if root {
        1
    } else {
        0
    }) + (if cur_dir {
        1
    } else {
        0
    });
    assert(start == body_start(s@));
    assert(cur_dir == starts_at_cur_dir(s@));
    let mut end = s.len();
    assert(s@.take(end as int) =~= s@);
    let mut found = false;
    loop
        invariant_except_break
            parent_from(s@.take(end as int), start as nat, cur_dir) == path_parent(remote_path@),
            !found,
        invariant
            start <= end <= s@.len(),
            s@ == remote_path@,
            start == body_start(s@),
            cur_dir == starts_at_cur_dir(s@),
        ensures
            start <= end <= s@.len(),
            s@ == remote_path@,
            start == body_start(s@),
            cur_dir == starts_at_cur_dir(s@),
            found ==> path_parent(remote_path@) == Some(trim_back(s@.take(end as int), start as nat)),
            !found ==> end <= start && parent_from(s@.take(end as int), start as nat, cur_dir)
                == path_parent(remote_path@),
        decreases end,
    {
        if end <= start {
            break;
        }
        let (comp_start, size) = last_component_of(s.as_slice(), start, end);
        let comp_len = end - comp_start;
        let passed_over = comp_len == 0 || (comp_len == 1 && s[comp_start] == '.');
        proof {
            let comp = s@.subrange(comp_start as int, end as int);
            let dot = seq!['.'];
            assert(dot.len() == 1 && dot[0] == '.');
            if comp_len == 1 {
                assert(comp[0] == s@[comp_start as int]);
                if s@[comp_start as int] == '.' {
                    assert(comp =~= dot);
                } else {
                    assert(comp[0] != dot[0]);
                }
            }
            assert(passed_over == is_passed_over(comp));
            assert(s@.take(end as int).take(end - size) =~= s@.take(end - size));
        }
        end = end - size;
        if !passed_over {
            found = true;
            break;
        }
    }
    if !found {
        if cur_dir {
            assert(end == 1);
            assert(s@.take(end as int).take(0) =~= Seq::<char>::empty());
            return Some(string_of(&s.as_slice()[0..0]));
        }
        return None;
    }
    loop
        invariant
            start <= end <= s@.len(),
            s@ == remote_path@,
            path_parent(remote_path@) == Some(trim_back(s@.take(end as int), start as nat)),
        ensures
            start <= end <= s@.len(),
            path_parent(remote_path@) == Some(s@.take(end as int)),
        decreases end,
    {
        if end <= start {
            assert(trim_back(s@.take(end as int), start as nat) == s@.take(end as int));
            break;
        }
        let (comp_start, size) = last_component_of(s.as_slice(), start, end);
        let comp_len = end - comp_start;
        let passed_over = comp_len == 0 || (comp_len == 1 && s[comp_start] == '.');
        proof {
            let comp = s@.subrange(comp_start as int, end as int);
            let dot = seq!['.'];
            assert(dot.len() == 1 && dot[0] == '.');
            if comp_len == 1 {
                assert(comp[0] == s@[comp_start as int]);
                if s@[comp_start as int] == '.' {
                    assert(comp =~= dot);
                } else {
                    assert(comp[0] != dot[0]);
                }
            }
            assert(passed_over == is_passed_over(comp));
            assert(s@.take(end as int).take(end - size) =~= s@.take(end - size));
        }
        if !passed_over {
            assert(trim_back(s@.take(end as int), start as nat) == s@.take(end as int));
            break;
        }
        end = end - size;
    }
    proof {
        assert(s@.subrange(0, end as int) =~= s@.take(end as int));
    }
    Some(string_of(&s.as_slice()[0..end]))
}

/// Dropping a normal last component gives the parent: for a path `p` that
/// does not end with `/` or with a `.` component of its own, and a name `n`
/// that is neither empty nor `.` and holds no `/`, the parent of `p/n` is
/// `p`, whatever other characters `n` holds.
pub proof fn lemma_parent_of_child(p: Seq<char>, n: Seq<char>)
    requires
        p.len() > 0,
        p.last() != '/',
        !(p.len() >= 2 && p[p.len() - 2] == '/' && p.last() == '.'),
        n.len() > 0,
        n != seq!['.'],
        !n.contains('/'),
    ensures
        path_parent(p + seq!['/'] + n) == Some(p),
        remote_parent(p + seq!['/'] + n) == p,
{
    let q = p + seq!['/'] + n;
    let start = body_start(q);
    assert(q[0] == p[0]);
    if p.len() > 1 {
        assert(q[1] == p[1]);
    } else {
        assert(q[1] == '/');
    }
    assert(start <= 1);
    let body = q.skip(start as int);
    assert forall|i: int| body.len() - n.len() <= i < body.len() implies #[trigger] body[i] != '/' by {
        assert(body[i] == n[i - (body.len() - n.len())]);
        if n[i - (body.len() - n.len())] == '/' {
            assert(n.contains('/'));
        }
    }
    assert(body[body.len() - n.len() - 1] == '/');
    lemma_trailing_other(body, '/', n.len() as int);
    assert(last_component(q, start) =~= n);
    assert(q.take(q.len() - last_component_size(q, start)) =~= p);
    assert(!is_passed_over(n));
    if p.len() > start {
        let bp = p.skip(start as int);
        lemma_trailing_other_bound(bp, '/');
        assert(bp.last() == p.last());
        let t = trailing_other(bp, '/');
        assert(t >= 1);
        let comp = last_component(p, start);
        assert(comp.len() == t);
        if comp == seq!['.'] {
            assert(t == 1);
            assert(comp[0] == bp.last());
            if bp.len() >= 2 {
                assert(trailing_other(bp.drop_last(), '/') == 0);
                assert(bp.drop_last().last() == '/');
                assert(p[p.len() - 2] == bp[bp.len() - 2]);
            } else {
                assert(p.len() == 2);
                assert(p[0] == '/');
            }
        }
        assert(!is_passed_over(comp));
    }
}

} // verus!
