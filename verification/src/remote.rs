//! Remote endpoints (`user@host:path`), remote paths, and shell quoting of
//! the paths that go into commands run over SSH.

use crate::text::{chars_of, string_of};
use vstd::prelude::*;

verus! {

/// A destination reached over SSH.
#[derive(Debug)]
pub struct RemoteEndpoint {
    pub host: String,
    pub path: String,
}

/// The number of characters at the start of `s` that differ from `c`.
pub open spec fn leading_other(s: Seq<char>, c: char) -> nat
    decreases s.len(),
{
    if s.len() > 0 && s[0] != c {
        1 + leading_other(s.drop_first(), c)
    } else {
        0
    }
}

/// The number of characters at the start of `s` equal to `c`.
pub open spec fn leading_same(s: Seq<char>, c: char) -> nat
    decreases s.len(),
{
    if s.len() > 0 && s[0] == c {
        1 + leading_same(s.drop_first(), c)
    } else {
        0
    }
}

/// The first `n` characters differ from `c` and the next, if any, is `c`:
/// then `n` characters lead before `c`.
pub proof fn lemma_leading_other(s: Seq<char>, c: char, n: int)
    requires
        0 <= n <= s.len(),
        forall|i: int| 0 <= i < n ==> #[trigger] s[i] != c,
        n == s.len() || s[n] == c,
    ensures
        leading_other(s, c) == n,
    decreases n,
{
    if n > 0 {
        let t = s.drop_first();
        assert forall|i: int| 0 <= i < n - 1 implies #[trigger] t[i] != c by {
            assert(t[i] == s[i + 1]);
        }
        if n - 1 < t.len() {
            assert(t[n - 1] == s[n]);
        }
        lemma_leading_other(t, c, n - 1);
    }
}

/// The first `n` characters are `c` and the next, if any, is not: then `n`
/// copies of `c` lead.
pub proof fn lemma_leading_same(s: Seq<char>, c: char, n: int)
    requires
        0 <= n <= s.len(),
        forall|i: int| 0 <= i < n ==> #[trigger] s[i] == c,
        n == s.len() || s[n] != c,
    ensures
        leading_same(s, c) == n,
    decreases n,
{
    if n > 0 {
        let t = s.drop_first();
        assert forall|i: int| 0 <= i < n - 1 implies #[trigger] t[i] == c by {
            assert(t[i] == s[i + 1]);
        }
        if n - 1 < t.len() {
            assert(t[n - 1] == s[n]);
        }
        lemma_leading_same(t, c, n - 1);
    }
}

/// The host and path of `raw`, split at its first `:`, when `raw` names a
/// remote endpoint: both parts non-empty, an `@` in the host and no `/`.
pub open spec fn remote_endpoint_of(raw: Seq<char>) -> Option<(Seq<char>, Seq<char>)> {
    let colon = leading_other(raw, ':') as int;
    if colon == raw.len() {
        None
    } else {
        let host = raw.take(colon);
        let path = raw.skip(colon + 1);
        if host.len() == 0 || path.len() == 0 || !host.contains('@') || host.contains('/') {
            None
        } else {
            Some((host, path))
        }
    }
}

/// Reads `user@host:path` as a remote endpoint; any other text is local.
pub fn parse_remote_endpoint(raw: &str) -> (endpoint: Option<RemoteEndpoint>)
    ensures
        endpoint is None ==> remote_endpoint_of(raw@) is None,
        endpoint matches Some(e) ==> remote_endpoint_of(raw@) == Some((e.host@, e.path@)),
{
    let s = chars_of(raw);
    let mut colon: usize = 0;
    while colon < s.len() && s[colon] != ':'
        invariant
            colon <= s@.len(),
            forall|i: int| 0 <= i < colon ==> #[trigger] s@[i] != ':',
        decreases s@.len() - colon,
    {
        colon = colon + 1;
    }
    proof {
        lemma_leading_other(s@, ':', colon as int);
    }
    if colon == s.len() {
        return None;
    }
    let mut has_at = false;
    let mut has_slash = false;
    for i in 0..colon
        invariant
            colon < s@.len(),
            has_at == (exists|j: int| 0 <= j < i && #[trigger] s@[j] == '@'),
            has_slash == (exists|j: int| 0 <= j < i && #[trigger] s@[j] == '/'),
    {
        if s[i] == '@' {
            has_at = true;
        }
        if s[i] == '/' {
            has_slash = true;
        }
    }
    let ghost host = s@.take(colon as int);
    proof {
        if has_at {
            let j = choose|j: int| 0 <= j < colon && #[trigger] s@[j] == '@';
            assert(host[j] == '@');
        }
        if host.contains('@') {
            let j = choose|j: int| 0 <= j < host.len() && host[j] == '@';
            assert(s@[j] == '@');
        }
        if has_slash {
            let j = choose|j: int| 0 <= j < colon && #[trigger] s@[j] == '/';
            assert(host[j] == '/');
        }
        if host.contains('/') {
            let j = choose|j: int| 0 <= j < host.len() && host[j] == '/';
            assert(s@[j] == '/');
        }
    }
    if colon == 0 || colon + 1 == s.len() || !has_at || has_slash {
        return None;
    }
    let host = string_of(&s.as_slice()[0..colon]);
    let path = string_of(&s.as_slice()[colon + 1..s.len()]);
    proof {
        assert(s@.subrange(0, colon as int) =~= s@.take(colon as int));
        assert(s@.subrange(colon + 1, s@.len() as int) =~= s@.skip(colon + 1));
    }
    Some(RemoteEndpoint { host, path })
}

/// What `shell_quote` writes for one character: a single quote closes the
/// quoted text, is written in double quotes, and the quoted text reopens.
pub open spec fn quote_piece(c: char) -> Seq<char> {
    if c == '\'' {
        seq!['\'', '"', '\'', '"', '\'']
    } else {
        seq![c]
    }
}

/// The inside of the single-quoted text for `s`.
pub open spec fn quote_body(s: Seq<char>) -> Seq<char>
    decreases s.len(),
{
    if s.len() == 0 {
        Seq::empty()
    } else {
        quote_piece(s[0]) + quote_body(s.drop_first())
    }
}

/// `s` in single quotes, each single quote of it written as `'"'"'`.
pub open spec fn shell_quoted(s: Seq<char>) -> Seq<char> {
    seq!['\''] + quote_body(s) + seq!['\'']
}

proof fn lemma_quote_body_push(s: Seq<char>, c: char)
    ensures
        quote_body(s.push(c)) == quote_body(s) + quote_piece(c),
    decreases s.len(),
{
    if s.len() == 0 {
        assert(s.push(c).drop_first() =~= Seq::<char>::empty());
        assert(quote_body(s.push(c)) =~= quote_piece(c) + quote_body(Seq::<char>::empty()));
    } else {
        assert(s.push(c).drop_first() =~= s.drop_first().push(c));
        lemma_quote_body_push(s.drop_first(), c);
        assert(quote_body(s.push(c)) =~= quote_piece(s[0]) + (quote_body(s.drop_first()) + quote_piece(c)));
    }
}

/// Wraps `value` in single quotes for a POSIX shell.
pub fn shell_quote(value: &str) -> (quoted: String)
    ensures
        quoted@ == shell_quoted(value@),
{
    let s = chars_of(value);
    let mut out = String::new();
    out.push('\'');
    for i in 0..s.len()
        invariant
            out@ == seq!['\''] + quote_body(s@.take(i as int)),
    {
        let c = s[i];
        if c == '\'' {
            out.push('\'');
            out.push('"');
            out.push('\'');
            out.push('"');
            out.push('\'');
        } else {
            out.push(c);
        }
        proof {
            assert(s@.take(i + 1) =~= s@.take(i as int).push(c));
            lemma_quote_body_push(s@.take(i as int), c);
        }
    }
    out.push('\'');
    proof {
        assert(s@.take(s@.len() as int) =~= s@);
    }
    out
}

/// The text a POSIX shell makes of a word built only of single-quoted and
/// double-quoted parts (double-quoted parts without `"`, `\\`, `$` or a
/// backquote); `None` for any other word.
pub open spec fn shell_word_value(w: Seq<char>) -> Option<Seq<char>>
    decreases w.len(), 0nat,
{
    if w.len() == 0 {
        Some(Seq::empty())
    } else if w[0] == '\'' {
        single_quoted_value(w.drop_first())
    } else if w[0] == '"' {
        double_quoted_value(w.drop_first())
    } else {
        None
    }
}

/// The rest of a word after an opening single quote.
pub open spec fn single_quoted_value(w: Seq<char>) -> Option<Seq<char>>
    decreases w.len(), 1nat,
{
    if w.len() == 0 {
        None
    } else if w[0] == '\'' {
        shell_word_value(w.drop_first())
    } else {
        match single_quoted_value(w.drop_first()) {
            Some(v) => Some(seq![w[0]] + v),
            None => None,
        }
    }
}

/// The rest of a word after an opening double quote.
pub open spec fn double_quoted_value(w: Seq<char>) -> Option<Seq<char>>
    decreases w.len(), 1nat,
{
    if w.len() == 0 {
        None
    } else if w[0] == '"' {
        shell_word_value(w.drop_first())
    } else if w[0] == '\\' || w[0] == '$' || w[0] == '`' {
        None
    } else {
        match double_quoted_value(w.drop_first()) {
            Some(v) => Some(seq![w[0]] + v),
            None => None,
        }
    }
}

proof fn lemma_quote_body_value(s: Seq<char>, rest: Seq<char>)
    ensures
        single_quoted_value(quote_body(s) + rest) == match single_quoted_value(rest) {
            Some(v) => Some(s + v),
            None => None::<Seq<char>>,
        },
    decreases s.len(),
{
    if s.len() == 0 {
        assert(quote_body(s) + rest =~= rest);
        match single_quoted_value(rest) {
            Some(v) => {
                assert(s + v =~= v);
            },
            None => {},
        }
    } else {
        let c = s[0];
        let t = s.drop_first();
        let tail = quote_body(t) + rest;
        lemma_quote_body_value(t, rest);
        let w = quote_body(s) + rest;
        assert(w =~= quote_piece(c) + tail);
        if c == '\'' {
            let w1 = w.drop_first();
            let w2 = w1.drop_first();
            let w3 = w2.drop_first();
            let w4 = w3.drop_first();
            assert(w1 =~= seq!['"', '\'', '"', '\''] + tail);
            assert(w2 =~= seq!['\'', '"', '\''] + tail);
            assert(w3 =~= seq!['"', '\''] + tail);
            assert(w4 =~= seq!['\''] + tail);
            assert(w4.drop_first() =~= tail);
            assert(single_quoted_value(w) == shell_word_value(w1));
            assert(shell_word_value(w1) == double_quoted_value(w2));
            assert(double_quoted_value(w3) == shell_word_value(w4));
            assert(shell_word_value(w4) == single_quoted_value(tail));
            match single_quoted_value(tail) {
                Some(v) => {
                    assert(double_quoted_value(w2) == Some(seq!['\''] + v));
                    assert(seq!['\''] + v =~= s + single_quoted_value(rest).unwrap());
                },
                None => {
                    assert(double_quoted_value(w2) is None);
                },
            }
        } else {
            assert(w.drop_first() =~= tail);
            match single_quoted_value(tail) {
                Some(v) => {
                    assert(seq![c] + v =~= s + single_quoted_value(rest).unwrap());
                },
                None => {},
            }
        }
    }
}

/// Shell quoting is safe: a POSIX shell reads the quoted word back as
/// exactly the text that was quoted, whatever characters it holds.
pub proof fn lemma_shell_quote_roundtrip(s: Seq<char>)
    ensures
        shell_word_value(shell_quoted(s)) == Some(s),
{
    let w = shell_quoted(s);
    let close = seq!['\''];
    assert(w.drop_first() =~= quote_body(s) + close);
    lemma_quote_body_value(s, close);
    assert(close.drop_first() =~= Seq::<char>::empty());
    assert(shell_word_value(Seq::<char>::empty()) == Some(Seq::<char>::empty()));
    assert(single_quoted_value(close) == Some(Seq::<char>::empty()));
    assert(s + Seq::<char>::empty() =~= s);
}

/// `s` with each backslash turned into a slash.
pub open spec fn with_forward_slashes(s: Seq<char>) -> Seq<char> {
    s.map_values(|c: char| if c == '\\' { '/' } else { c })
}

/// `relative` appended to `base` with one `/` between them, as
/// `remote_join_path` does; `base` itself when `relative` is empty.
pub open spec fn remote_joined(base: Seq<char>, relative: Seq<char>) -> Seq<char> {
    let rel = with_forward_slashes(relative);
    if rel.len() == 0 {
        base
    } else if base.len() > 0 && base.last() == '/' {
        base + rel
    } else {
        base + seq!['/'] + rel
    }
}

/// Joining keeps the relative path as it is, character for character, when
/// it holds no backslash: `base/rel`, or `base` + `rel` when `base` already
/// ends with `/`, or `base` alone when `rel` is empty.
pub proof fn lemma_join_keeps_relative(base: Seq<char>, rel: Seq<char>)
    requires
        !rel.contains('\\'),
    ensures
        remote_joined(base, rel) == (if rel.len() == 0 {
            base
        } else if base.len() > 0 && base.last() == '/' {
            base + rel
        } else {
            base + seq!['/'] + rel
        }),
{
    assert forall|i: int| 0 <= i < rel.len() implies #[trigger] rel[i] != '\\' by {
        if rel[i] == '\\' {
            assert(rel.contains('\\'));
        }
    }
    assert(with_forward_slashes(rel) =~= rel);
}

/// Appends a relative path, written with `/` separators, to a remote base path.
pub fn remote_join_path(base: &str, relative: &str) -> (joined: String)
    ensures
        joined@ == remote_joined(base@, relative@),
        !relative@.contains('\\') ==> joined@ == (if relative@.len() == 0 {
            base@
        } else if base@.len() > 0 && base@.last() == '/' {
            base@ + relative@
        } else {
            base@ + seq!['/'] + relative@
        }),
{
    let b = chars_of(base);
    let r = chars_of(relative);
    if r.len() == 0 {
        proof {
            assert(with_forward_slashes(relative@).len() == 0);
        }
        return string_of(b.as_slice());
    }
    let mut out = b.clone();
    if !(b.len() > 0 && b[b.len() - 1] == '/') {
        out.push('/');
    }
    let ghost start = out@;
    for i in 0..r.len()
        invariant
            out@ == start + with_forward_slashes(r@.take(i as int)),
    {
        let c = r[i];
        if c == '\\' {
            out.push('/');
        } else {
            out.push(c);
        }
        proof {
            assert(with_forward_slashes(r@.take(i + 1)) =~= with_forward_slashes(r@.take(i as int)).push(
                if c == '\\' {
                    '/'
                } else {
                    c
                },
            ));
        }
    }
    proof {
        assert(r@.take(r@.len() as int) =~= r@);
        assert(out@ =~= remote_joined(base@, relative@));
        if !relative@.contains('\\') {
            lemma_join_keeps_relative(base@, relative@);
        }
    }
    string_of(out.as_slice())
}

/// The part of `full` after the prefix `base`, without its leading slashes,
/// as `remote_relative_path` gives it; `None` when `full` does not start
/// with `base`.
pub open spec fn remote_relative(base: Seq<char>, full: Seq<char>) -> Option<Seq<char>> {
    if base.is_prefix_of(full) {
        let rest = full.skip(base.len() as int);
        Some(rest.skip(leading_same(rest, '/') as int))
    } else {
        None
    }
}

/// The path of a remote file relative to a remote base directory.
pub fn remote_relative_path(base: &str, full: &str) -> (relative: Option<String>)
    ensures
        relative is None ==> remote_relative(base@, full@) is None,
        relative matches Some(r) ==> remote_relative(base@, full@) == Some(r@),
{
    let b = chars_of(base);
    let f = chars_of(full);
    if b.len() > f.len() {
        return None;
    }
    for i in 0..b.len()
        invariant
            b@ == base@,
            f@ == full@,
            b@.len() <= f@.len(),
            forall|j: int| 0 <= j < i ==> b@[j] == f@[j],
    {
        if b[i] != f[i] {
            proof {
                assert(b@[i as int] != f@.subrange(0, b@.len() as int)[i as int]);
            }
            return None;
        }
    }
    let mut start = b.len();
    while start < f.len() && f[start] == '/'
        invariant
            b@.len() <= start <= f@.len(),
            forall|j: int| b@.len() <= j < start ==> #[trigger] f@[j] == '/',
        decreases f@.len() - start,
    {
        start = start + 1;
    }
    proof {
        assert(b@.is_prefix_of(f@));
        let rest = f@.skip(b@.len() as int);
        assert forall|j: int| 0 <= j < start - b@.len() implies #[trigger] rest[j] == '/' by {
            assert(rest[j] == f@[b@.len() + j]);
        }
        if start < f@.len() {
            assert(rest[start - b@.len()] == f@[start as int]);
        }
        lemma_leading_same(rest, '/', start - b@.len());
        assert(rest.skip(start - b@.len()) =~= f@.subrange(start as int, f@.len() as int));
    }
    Some(string_of(&f.as_slice()[start..f.len()]))
}

/// A remote shell command: `command`, a space, and `path` quoted.
pub fn shell_command(command: &str, path: &str) -> (line: String)
    ensures
        line@ == command@ + seq![' '] + shell_quoted(path@),
{
    let mut line = string_of(chars_of(command).as_slice());
    line.push(' ');
    let quoted = chars_of(shell_quote(path).as_str());
    let ghost start = line@;
    for i in 0..quoted.len()
        invariant
            line@ == start + quoted@.take(i as int),
    {
        line.push(quoted[i]);
        proof {
            assert(quoted@.take(i + 1) =~= quoted@.take(i as int).push(quoted@[i as int]));
        }
    }
    proof {
        assert(quoted@.take(quoted@.len() as int) =~= quoted@);
    }
    line
}

/// The `host:path` target that `scp` copies to, with the path quoted for
/// the remote shell.
pub fn scp_target(host: &str, path: &str) -> (target: String)
    ensures
        target@ == host@ + seq![':'] + shell_quoted(path@),
{
    let mut target = string_of(chars_of(host).as_slice());
    target.push(':');
    let quoted = chars_of(shell_quote(path).as_str());
    let ghost start = target@;
    for i in 0..quoted.len()
        invariant
            target@ == start + quoted@.take(i as int),
    {
        target.push(quoted[i]);
        proof {
            assert(quoted@.take(i + 1) =~= quoted@.take(i as int).push(quoted@[i as int]));
        }
    }
    proof {
        assert(quoted@.take(quoted@.len() as int) =~= quoted@);
    }
    target
}

/// `user@host:path` with a non-empty path reads as that host and path,
/// whatever the path holds.
pub proof fn lemma_endpoint_reads_back(host: Seq<char>, path: Seq<char>)
    requires
        host.len() > 0,
        path.len() > 0,
        host.contains('@'),
        !host.contains('/'),
        !host.contains(':'),
    ensures
        remote_endpoint_of(host + seq![':'] + path) == Some((host, path)),
{
    let raw = host + seq![':'] + path;
    assert forall|i: int| 0 <= i < host.len() implies #[trigger] raw[i] != ':' by {
        assert(raw[i] == host[i]);
    }
    assert(raw[host.len() as int] == ':');
    lemma_leading_other(raw, ':', host.len() as int);
    assert(raw.take(host.len() as int) =~= host);
    assert(raw.skip(host.len() + 1 as int) =~= path);
}

/// Text without a `:` is never a remote endpoint.
pub proof fn lemma_local_without_colon(raw: Seq<char>)
    requires
        !raw.contains(':'),
    ensures
        remote_endpoint_of(raw) is None,
{
    assert forall|i: int| 0 <= i < raw.len() implies #[trigger] raw[i] != ':' by {
        if raw[i] == ':' {
            assert(raw.contains(':'));
        }
    }
    lemma_leading_other(raw, ':', raw.len() as int);
}

/// A file copied to `remote_join_path(base, rel)` is found again, by the
/// scan for files to delete, at the relative path `rel` (with `/` for `\\`),
/// as long as `rel` does not start with a separator.
pub proof fn lemma_joined_path_relative(base: Seq<char>, rel: Seq<char>)
    requires
        rel.len() > 0,
        rel[0] != '/',
        rel[0] != '\\',
    ensures
        remote_relative(base, remote_joined(base, rel)) == Some(with_forward_slashes(rel)),
{
    let r = with_forward_slashes(rel);
    assert(r[0] != '/');
    let full = remote_joined(base, rel);
    if base.len() > 0 && base.last() == '/' {
        assert(full == base + r);
        assert(full.subrange(0, base.len() as int) =~= base);
        let rest = full.skip(base.len() as int);
        assert(rest =~= r);
        lemma_leading_same(rest, '/', 0);
        assert(rest.skip(0) =~= rest);
    } else {
        assert(full == base + seq!['/'] + r);
        assert(full.subrange(0, base.len() as int) =~= base);
        let rest = full.skip(base.len() as int);
        assert(rest =~= seq!['/'] + r);
        assert(rest[1] == r[0]);
        lemma_leading_same(rest, '/', 1);
        assert(rest.skip(1) =~= r);
    }
}

} // verus!
