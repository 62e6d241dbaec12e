use vstd::prelude::*;
use vstd::string::*;

verus! {

/// The first position at or after `start` where `"://"` begins, or -1.
pub open spec fn sep_from(s: Seq<char>, start: int) -> int
    decreases s.len() - start,
{
    if start < 0 || start + 3 > s.len() {
        -1
    } else if s[start] == ':' && s[start + 1] == '/' && s[start + 2] == '/' {
        start
    } else {
        sep_from(s, start + 1)
    }
}

/// The first position at or after `start` that holds `c`, or -1.
pub open spec fn index_from(s: Seq<char>, c: char, start: int) -> int
    decreases s.len() - start,
{
    if start < 0 || start >= s.len() {
        -1
    } else if s[start] == c {
        start
    } else {
        index_from(s, c, start + 1)
    }
}

/// The last position that holds `c`, or -1.
pub open spec fn last_index(s: Seq<char>, c: char) -> int
    decreases s.len(),
{
    if s.len() == 0 {
        -1
    } else if s.last() == c {
        s.len() - 1
    } else {
        last_index(s.drop_last(), c)
    }
}

pub open spec fn is_letter(c: char) -> bool {
    ('a' <= c && c <= 'z') || ('A' <= c && c <= 'Z')
}

/// A character that may stand in a URL scheme after its first letter.
pub open spec fn is_scheme_char(c: char) -> bool {
    is_letter(c) || ('0' <= c && c <= '9') || c == '+' || c == '-' || c == '.'
}

/// A URL is absolute when it starts with a scheme (a letter, then letters, digits,
/// `+`, `-` or `.`) followed by `"://"`.
pub open spec fn is_absolute(s: Seq<char>) -> bool {
    &&& sep_from(s, 0) > 0
    &&& is_letter(s[0])
    &&& forall|i: int| 0 <= i < sep_from(s, 0) ==> is_scheme_char(#[trigger] s[i])
}

/// The length of the part of `s` before the first `c`.
pub open spec fn cut_at(s: Seq<char>, c: char) -> int {
    if index_from(s, c, 0) < 0 { s.len() as int } else { index_from(s, c, 0) }
}

/// The length of the part of `s` before its query or fragment.
pub open spec fn query_cut(s: Seq<char>) -> int {
    if cut_at(s, '?') < cut_at(s, '#') { cut_at(s, '?') } else { cut_at(s, '#') }
}

/// Where the path of an absolute URL begins (its first `/` after the host), or -1.
pub open spec fn origin_end(base: Seq<char>) -> int {
    index_from(base, '/', sep_from(base, 0) + 3)
}

/// `out` (a directory, ending in `/`) without its last segment, but not shorter
/// than `floor`.
pub open spec fn pop_dir(out: Seq<char>, floor: int) -> Seq<char> {
    let p = last_index(out.subrange(0, out.len() - 1), '/') + 1;
    if p < floor {
        out.subrange(0, floor)
    } else {
        out.subrange(0, p)
    }
}

/// Appends the segments of `path` from `pos` on to the directory `out`: a `.`
/// segment is dropped, a `..` segment removes the last segment of `out` (never
/// shortening it below `floor`), and any other is appended.
pub open spec fn walk(out: Seq<char>, floor: int, path: Seq<char>, pos: int) -> Seq<char>
    decreases path.len() - pos,
{
    if pos < 0 || pos > path.len() {
        out
    } else {
        let n = index_from(path, '/', pos);
        if n < pos || n >= path.len() {
            let e = path.len() as int;
            if e == pos || (e == pos + 1 && path[pos] == '.') {
                out
            } else if e == pos + 2 && path[pos] == '.' && path[pos + 1] == '.' {
                pop_dir(out, floor)
            } else {
                out + path.subrange(pos, e)
            }
        } else if n == pos + 1 && path[pos] == '.' {
            walk(out, floor, path, n + 1)
        } else if n == pos + 2 && path[pos] == '.' && path[pos + 1] == '.' {
            walk(pop_dir(out, floor), floor, path, n + 1)
        } else {
            walk(out + path.subrange(pos, n + 1), floor, path, n + 1)
        }
    }
}

/// `s` without its query and fragment.
pub open spec fn strip_query(s: Seq<char>) -> Seq<char> {
    s.subrange(0, query_cut(s))
}

/// A path reference `r` (rooted or relative) read against the absolute URL `b`,
/// which has no query or fragment: the path of `r`, with its dot segments removed,
/// from the root or from the directory of `b`, then the query and fragment of `r`.
pub open spec fn merge_path(r: Seq<char>, b: Seq<char>) -> Seq<char> {
    let path = r.subrange(0, query_cut(r));
    let suffix = r.subrange(query_cut(r), r.len() as int);
    let oe = origin_end(b);
    let start: int = if r[0] == '/' { 1 } else { 0 };
    if oe < 0 {
        walk(b + seq!['/'], b.len() + 1 as int, path, start) + suffix
    } else if r[0] == '/' {
        walk(b.subrange(0, oe + 1), oe + 1, path, start) + suffix
    } else {
        walk(b.subrange(0, last_index(b, '/') + 1), oe + 1, path, start) + suffix
    }
}

/// The URL that `r` denotes when read relative to `base`; `None` when it cannot be
/// made absolute (a relative `base`, or an empty reference). A fragment reference
/// (`#..`) replaces the base's fragment, a query reference (`?..`) its query and
/// fragment, a network-path reference (`//host..`) all but its scheme, a rooted one
/// (`/..`) its path, and any other its last path segment; the base's query and fragment
/// are dropped, and `.` and `..` segments are removed (never climbing above the host).
pub open spec fn resolve_ref(r: Seq<char>, base: Seq<char>) -> Option<Seq<char>> {
    if is_absolute(r) {
        Some(r)
    } else if !is_absolute(base) || r.len() == 0 {
        None
    } else if r[0] == '#' {
        Some(base.subrange(0, cut_at(base, '#')) + r)
    } else if r[0] == '?' {
        Some(base.subrange(0, query_cut(base)) + r)
    } else if r.len() >= 2 && r[0] == '/' && r[1] == '/' {
        Some(base.subrange(0, sep_from(base, 0) + 1) + r)
    } else {
        Some(merge_path(r, strip_query(base)))
    }
}

proof fn lemma_walk_prefix(out: Seq<char>, floor: int, path: Seq<char>, pos: int)
    requires
        1 <= floor <= out.len(),
    ensures
        walk(out, floor, path, pos).len() >= floor,
        walk(out, floor, path, pos).subrange(0, floor) == out.subrange(0, floor),
    decreases path.len() - pos,
{
    if 0 <= pos <= path.len() {
        let n = index_from(path, '/', pos);
        lemma_last_index_range(out.subrange(0, out.len() - 1), '/');
        let pd = pop_dir(out, floor);
        assert(pd.subrange(0, floor) =~= out.subrange(0, floor));
        if n < pos || n >= path.len() {
            let e = path.len() as int;
            assert((out + path.subrange(pos, e)).subrange(0, floor) =~= out.subrange(0, floor));
        } else if n == pos + 1 && path[pos] == '.' {
            lemma_walk_prefix(out, floor, path, n + 1);
        } else if n == pos + 2 && path[pos] == '.' && path[pos + 1] == '.' {
            lemma_walk_prefix(pd, floor, path, n + 1);
        } else {
            let o2 = out + path.subrange(pos, n + 1);
            assert(o2.subrange(0, floor) =~= out.subrange(0, floor));
            lemma_walk_prefix(o2, floor, path, n + 1);
        }
    }
}

proof fn lemma_index_from_range(s: Seq<char>, c: char, start: int)
    ensures
        index_from(s, c, start) == -1 || (start <= index_from(s, c, start) < s.len()
            && s[index_from(s, c, start)] == c),
    decreases s.len() - start,
{
    if start >= 0 && start < s.len() && s[start] != c {
        lemma_index_from_range(s, c, start + 1);
    }
}

proof fn lemma_sep_from_range(s: Seq<char>, start: int)
    ensures
        sep_from(s, start) == -1 || (start <= sep_from(s, start) && sep_from(s, start) + 3
            <= s.len()),
        sep_from(s, start) >= 0 ==> s[sep_from(s, start)] == ':' && s[sep_from(s, start) + 1] == '/'
            && s[sep_from(s, start) + 2] == '/',
    decreases s.len() - start,
{
    if start >= 0 && start + 3 <= s.len() && !(s[start] == ':' && s[start + 1] == '/' && s[start
        + 2] == '/') {
        lemma_sep_from_range(s, start + 1);
    }
}

proof fn lemma_last_index_range(s: Seq<char>, c: char)
    ensures
        -1 <= last_index(s, c) < s.len(),
        last_index(s, c) >= 0 ==> s[last_index(s, c)] == c,
    decreases s.len(),
{
    if s.len() > 0 && s.last() != c {
        lemma_last_index_range(s.drop_last(), c);
    }
}

proof fn lemma_last_index_at_least(s: Seq<char>, c: char, k: int)
    requires
        0 <= k < s.len(),
        s[k] == c,
    ensures
        last_index(s, c) >= k,
    decreases s.len(),
{
    if s.last() != c {
        lemma_last_index_at_least(s.drop_last(), c, k);
    }
}

proof fn lemma_sep_at(b: Seq<char>, start: int, k: int)
    requires
        0 <= start <= k,
        k + 3 <= b.len(),
        b[k] == ':' && b[k + 1] == '/' && b[k + 2] == '/',
        forall|i: int| start <= i < k ==> b[i] != ':',
    ensures
        sep_from(b, start) == k,
    decreases k - start,
{
    if start < k {
        lemma_sep_at(b, start + 1, k);
    }
}

proof fn lemma_index_from_skips(s: Seq<char>, c: char, start: int, m: int)
    requires
        0 <= start <= m,
        forall|i: int| start <= i < m && i < s.len() ==> s[i] != c,
    ensures
        index_from(s, c, start) == index_from(s, c, m) || index_from(s, c, start) == -1,
    decreases m - start,
{
    if start < m && start < s.len() {
        lemma_index_from_skips(s, c, start + 1, m);
    }
}

/// The first `k + 3` characters of an absolute URL hold no `?` or `#`.
proof fn lemma_cut_after_sep(base: Seq<char>, c: char)
    requires
        is_absolute(base),
        c == '?' || c == '#',
    ensures
        sep_from(base, 0) + 3 <= cut_at(base, c) <= base.len(),
{
    let k = sep_from(base, 0);
    lemma_sep_from_range(base, 0);
    assert forall|i: int| 0 <= i < k + 3 && i < base.len() implies base[i] != c by {
        if i < k {
            assert(is_scheme_char(base[i]));
        }
    }
    lemma_index_from_skips(base, c, 0, k + 3);
    lemma_index_from_range(base, c, 0);
    lemma_index_from_range(base, c, k + 3);
}

/// Whatever `resolve_ref` gives is an absolute URL.
proof fn lemma_merge_path_prefix(r: Seq<char>, base: Seq<char>)
    requires
        is_absolute(base),
        r.len() > 0,
    ensures
        ({
            let k = sep_from(base, 0);
            let u = merge_path(r, strip_query(base));
            u.len() >= k + 3 && forall|i: int| 0 <= i < k + 3 ==> u[i] == base[i]
        }),
{
    let k = sep_from(base, 0);
    lemma_sep_from_range(base, 0);
    lemma_cut_after_sep(base, '#');
    lemma_cut_after_sep(base, '?');
    let b = strip_query(base);
    assert forall|i: int| 0 <= i < b.len() implies b[i] == base[i] by {}
    assert forall|i: int| 0 <= i < k implies b[i] != ':' by {
        assert(is_scheme_char(base[i]));
    }
    lemma_sep_at(b, 0, k);
    let path = r.subrange(0, query_cut(r));
    let start: int = if r[0] == '/' { 1 } else { 0 };
    let oe = origin_end(b);
    lemma_index_from_range(b, '/', k + 3);
    let (out, floor) = if oe < 0 {
        (b + seq!['/'], b.len() + 1 as int)
    } else if r[0] == '/' {
        (b.subrange(0, oe + 1), oe + 1)
    } else {
        lemma_last_index_range(b, '/');
        lemma_last_index_at_least(b, '/', oe);
        (b.subrange(0, last_index(b, '/') + 1), oe + 1)
    };
    lemma_walk_prefix(out, floor, path, start);
    let w = walk(out, floor, path, start);
    let u = merge_path(r, b);
    assert(u == w + r.subrange(query_cut(r), r.len() as int));
    assert forall|i: int| 0 <= i < k + 3 implies u[i] == base[i] by {
        assert(u[i] == w[i]);
        assert(w[i] == w.subrange(0, floor)[i]);
        assert(out[i] == b[i]);
    }
}

/// Whatever `resolve_ref` gives is an absolute URL.
pub proof fn lemma_resolved_is_absolute(r: Seq<char>, base: Seq<char>)
    ensures
        resolve_ref(r, base) matches Some(u) ==> is_absolute(u),
{
    if !is_absolute(r) && is_absolute(base) && r.len() > 0 {
        let k = sep_from(base, 0);
        lemma_sep_from_range(base, 0);
        let u = resolve_ref(r, base)->Some_0;
        if r[0] == '#' || r[0] == '?' || (r.len() >= 2 && r[0] == '/' && r[1] == '/') {
            let m: int = if r[0] == '#' {
                lemma_cut_after_sep(base, '#');
                cut_at(base, '#')
            } else if r[0] == '?' {
                lemma_cut_after_sep(base, '#');
                lemma_cut_after_sep(base, '?');
                query_cut(base)
            } else {
                k + 1
            };
            assert(u.subrange(0, m) =~= base.subrange(0, m));
            assert forall|i: int| 0 <= i < m implies u[i] == base[i] by {
                assert(u[i] == u.subrange(0, m)[i]);
            }
            if m == k + 1 {
                assert(u[k + 1] == r[0] && u[k + 2] == r[1]);
            }
        } else {
            lemma_merge_path_prefix(r, base);
        }
        assert forall|i: int| 0 <= i < k implies u[i] != ':' && u[i] == base[i] by {
            assert(is_scheme_char(base[i]));
        }
        lemma_sep_at(u, 0, k);
    }
}

fn find_sep(s: &str) -> (r: Option<usize>)
    ensures
        match r {
            Some(i) => i as int == sep_from(s@, 0),
            None => sep_from(s@, 0) == -1,
        },
{
    let n = s.unicode_len();
    let mut i: usize = 0;
    while n >= 3 && i <= n - 3
        invariant
            n == s@.len(),
            0 <= i <= n,
            sep_from(s@, i as int) == sep_from(s@, 0),
        decreases n - i,
    {
        if s.get_char(i) == ':' && s.get_char(i + 1) == '/' && s.get_char(i + 2) == '/' {
            return Some(i);
        }
        i = i + 1;
    }
    None
}

fn find_from(s: &str, c: char, start: usize) -> (r: Option<usize>)
    ensures
        match r {
            Some(i) => i as int == index_from(s@, c, start as int),
            None => index_from(s@, c, start as int) == -1,
        },
{
    let n = s.unicode_len();
    let mut i: usize = start;
    while i < n
        invariant
            n == s@.len(),
            start <= i,
            index_from(s@, c, i as int) == index_from(s@, c, start as int),
        decreases n - i,
    {
        if s.get_char(i) == c {
            return Some(i);
        }
        i = i + 1;
    }
    None
}

fn find_last(s: &str, c: char) -> (r: Option<usize>)
    ensures
        match r {
            Some(i) => i as int == last_index(s@, c),
            None => last_index(s@, c) == -1,
        },
{
    let n = s.unicode_len();
    let mut i: usize = n;
    assert(s@.subrange(0, n as int) =~= s@);
    while i > 0
        invariant
            n == s@.len(),
            i <= n,
            last_index(s@.subrange(0, i as int), c) == last_index(s@, c),
        decreases i,
    {
        assert(s@.subrange(0, i as int).drop_last() =~= s@.subrange(0, i - 1));
        if s.get_char(i - 1) == c {
            return Some(i - 1);
        }
        i = i - 1;
    }
    None
}

/// Whether two strings hold the same characters.
pub fn same_text(a: &str, b: &str) -> (r: bool)
    ensures
        r == (a@ == b@),
{
    let n = a.unicode_len();
    if n != b.unicode_len() {
        return false;
    }
    let mut i: usize = 0;
    while i < n
        invariant
            n == a@.len(),
            n == b@.len(),
            i <= n,
            forall|j: int| 0 <= j < i ==> a@[j] == b@[j],
        decreases n - i,
    {
        if a.get_char(i) != b.get_char(i) {
            return false;
        }
        i = i + 1;
    }
    assert(a@ =~= b@);
    true
}

fn is_letter_exec(c: char) -> (r: bool)
    ensures
        r == is_letter(c),
{
    (c >= 'a' && c <= 'z') || (c >= 'A' && c <= 'Z')
}

fn is_scheme_char_exec(c: char) -> (r: bool)
    ensures
        r == is_scheme_char(c),
{
    is_letter_exec(c) || (c >= '0' && c <= '9') || c == '+' || c == '-' || c == '.'
}

pub fn is_absolute_url(s: &str) -> (r: bool)
    ensures
        r == is_absolute(s@),
{
    let k = match find_sep(s) {
        Some(i) => i,
        None => return false,
    };
    proof {
        lemma_sep_from_range(s@, 0);
    }
    if k == 0 || !is_letter_exec(s.get_char(0)) {
        return false;
    }
    let mut i: usize = 0;
    while i < k
        invariant
            k as int == sep_from(s@, 0),
            k + 3 <= s@.len(),
            i <= k,
            forall|j: int| 0 <= j < i ==> is_scheme_char(#[trigger] s@[j]),
        decreases k - i,
    {
        if !is_scheme_char_exec(s.get_char(i)) {
            return false;
        }
        i = i + 1;
    }
    true
}

fn cut_exec(s: &str, c: char) -> (r: usize)
    ensures
        r as int == cut_at(s@, c),
        r <= s@.len(),
{
    let n = s.unicode_len();
    proof {
        lemma_index_from_range(s@, c, 0);
    }
    match find_from(s, c, 0) {
        Some(i) => i,
        None => n,
    }
}

fn pop_exec(out: &str, floor: usize) -> (r: String)
    requires
        1 <= floor <= out@.len(),
    ensures
        r@ == pop_dir(out@, floor as int),
        r@.len() >= floor,
{
    let n = out.unicode_len();
    let head = out.substring_char(0, n - 1);
    proof {
        lemma_last_index_range(head@, '/');
    }
    let p = match find_last(head, '/') {
        Some(l) => l + 1,
        None => 0,
    };
    if p < floor {
        String::from_str(out.substring_char(0, floor))
    } else {
        String::from_str(out.substring_char(0, p))
    }
}

fn walk_exec(out0: String, floor: usize, path: &str, start: usize) -> (r: String)
    requires
        1 <= floor <= out0@.len(),
        start <= path@.len(),
    ensures
        r@ == walk(out0@, floor as int, path@, start as int),
{
    let n = path.unicode_len();
    let mut out = out0;
    let mut pos = start;
    loop
        invariant
            n == path@.len(),
            pos <= n,
            1 <= floor <= out@.len(),
            walk(out0@, floor as int, path@, start as int) == walk(out@, floor as int, path@, pos as int),
        decreases n - pos,
    {
        proof {
            lemma_index_from_range(path@, '/', pos as int);
        }
        match find_from(path, '/', pos) {
            None => {
                if pos == n || (n - pos == 1 && path.get_char(pos) == '.') {
                    return out;
                } else if n - pos == 2 && path.get_char(pos) == '.' && path.get_char(pos + 1) == '.' {
                    return pop_exec(out.as_str(), floor);
                } else {
                    out.append(path.substring_char(pos, n));
                    return out;
                }
            },
            Some(m) => {
                if m - pos == 1 && path.get_char(pos) == '.' {
                } else if m - pos == 2 && path.get_char(pos) == '.' && path.get_char(pos + 1) == '.' {
                    out = pop_exec(out.as_str(), floor);
                } else {
                    out.append(path.substring_char(pos, m + 1));
                }
                pos = m + 1;
            },
        }
    }
}

/// Resolves the reference `r` against the absolute URL `base`.
pub fn resolve_reference(r: &str, base: &str) -> (res: Option<String>)
    ensures
        match res {
            Some(u) => resolve_ref(r@, base@) == Some(u@),
            None => resolve_ref(r@, base@) is None,
        },
{
    proof {
        reveal_strlit("/");
    }
    if is_absolute_url(r) {
        return Some(String::from_str(r));
    }
    let rn = r.unicode_len();
    if !is_absolute_url(base) || rn == 0 {
        return None;
    }
    let bn = base.unicode_len();
    let sep = match find_sep(base) {
        Some(i) => i,
        None => return None,
    };
    proof {
        lemma_sep_from_range(base@, 0);
    }
    let first = r.get_char(0);
    if first == '#' || first == '?' {
        let end = if first == '#' {
            cut_exec(base, '#')
        } else {
            let q = cut_exec(base, '?');
            let h = cut_exec(base, '#');
            if q < h { q } else { h }
        };
        let mut out = String::from_str(base.substring_char(0, end));
        out.append(r);
        return Some(out);
    }
    if rn >= 2 && first == '/' && r.get_char(1) == '/' {
        let mut out = String::from_str(base.substring_char(0, sep + 1));
        out.append(r);
        return Some(out);
    }
    let bq = {
        let q = cut_exec(base, '?');
        let h = cut_exec(base, '#');
        if q < h { q } else { h }
    };
    let rq = {
        let q = cut_exec(r, '?');
        let h = cut_exec(r, '#');
        if q < h { q } else { h }
    };
    proof {
        lemma_cut_after_sep(base@, '#');
        lemma_cut_after_sep(base@, '?');
        assert forall|i: int| 0 <= i < sep implies base@[i] != ':' by {
            assert(is_scheme_char(base@[i]));
        }
    }
    let b = base.substring_char(0, bq);
    let path = r.substring_char(0, rq);
    let suffix = r.substring_char(rq, rn);
    proof {
        lemma_sep_at(b@, 0, sep as int);
    }
    let rooted = first == '/';
    let start: usize = if rooted { 1 } else { 0 };
    proof {
        if rooted {
            lemma_index_from_range(r@, '?', 0);
            lemma_index_from_range(r@, '#', 0);
            assert(rq >= 1);
        }
    }
    let bn2 = b.unicode_len();
    let walked = match find_from(b, '/', sep + 3) {
        None => {
            let mut out0 = String::from_str(b);
            out0.append("/");
            let f = out0.unicode_len();
            assert(out0@ =~= b@ + seq!['/']);
            assert(origin_end(b@) < 0);
            walk_exec(out0, f, path, start)
        },
        Some(o) => {
            proof {
                lemma_index_from_range(b@, '/', sep + 3);
                lemma_last_index_range(b@, '/');
                lemma_last_index_at_least(b@, '/', o as int);
            }
            assert(origin_end(b@) == o);
            if rooted {
                walk_exec(String::from_str(b.substring_char(0, o + 1)), o + 1, path, start)
            } else {
                let d = match find_last(b, '/') {
                    Some(l) => l + 1,
                    None => return None,
                };
                walk_exec(String::from_str(b.substring_char(0, d)), o + 1, path, start)
            }
        },
    };
    assert(b@ == strip_query(base@));
    assert(path@ == r@.subrange(0, query_cut(r@)));
    assert(suffix@ == r@.subrange(query_cut(r@), r@.len() as int));
    assert(walked@ + suffix@ == merge_path(r@, b@));
    let mut res = walked;
    res.append(suffix);
    Some(res)
}

} // verus!
