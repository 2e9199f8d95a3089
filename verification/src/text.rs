//! Text rules of the lookup search: whitespace trimming, SQL `LIKE`
//! matching (ASCII case-insensitive, `%` and `_` wildcards, `\` escape), and
//! the escaping that turns a user query into a pattern that matches it
//! literally.
use vstd::prelude::*;

verus! {

/// The characters of `s`, in order.
pub fn chars_of(s: &str) -> (v: Vec<char>)
    ensures
        v@ == s@,
{
    let mut v: Vec<char> = Vec::new();
    for c in it: s.chars()
        invariant
            v@ == it.seq().take(it.index() as int),
    {
        v.push(c);
    }
    v
}

// ---- whitespace and trimming ------------------------------------------------

/// Unicode `White_Space`, the set that `char::is_whitespace` (and so
/// `str::trim`) uses.
pub open spec fn is_ws(c: char) -> bool {
    let x = c as u32;
    ||| 0x09 <= x <= 0x0d
    ||| x == 0x20
    ||| x == 0x85
    ||| x == 0xa0
    ||| x == 0x1680
    ||| 0x2000 <= x <= 0x200a
    ||| x == 0x2028
    ||| x == 0x2029
    ||| x == 0x202f
    ||| x == 0x205f
    ||| x == 0x3000
}

pub fn is_whitespace(c: char) -> (b: bool)
    ensures
        b == is_ws(c),
{
    let x = c as u32;
    (0x09 <= x && x <= 0x0d) || x == 0x20 || x == 0x85 || x == 0xa0 || x == 0x1680 || (0x2000
        <= x && x <= 0x200a) || x == 0x2028 || x == 0x2029 || x == 0x202f || x == 0x205f || x
        == 0x3000
}

/// `s` without its leading whitespace.
pub open spec fn trim_start(s: Seq<char>) -> Seq<char>
    decreases s.len(),
{
    if s.len() > 0 && is_ws(s[0]) {
        trim_start(s.drop_first())
    } else {
        s
    }
}

/// `s` without its trailing whitespace.
pub open spec fn trim_end(s: Seq<char>) -> Seq<char>
    decreases s.len(),
{
    if s.len() > 0 && is_ws(s.last()) {
        trim_end(s.drop_last())
    } else {
        s
    }
}

/// `s` without leading and trailing whitespace, as `str::trim` gives it.
pub open spec fn trimmed(s: Seq<char>) -> Seq<char> {
    trim_end(trim_start(s))
}

/// The characters of `s` without leading and trailing whitespace.
pub fn trim(s: &Vec<char>) -> (r: Vec<char>)
    ensures
        r@ == trimmed(s@),
{
    let n = s.len();
    let mut start: usize = 0;
    assert(s@.skip(0) =~= s@);
    while start < n && is_whitespace(s[start])
        invariant
            n == s@.len(),
            start <= n,
            trim_start(s@) == trim_start(s@.skip(start as int)),
        decreases n - start,
    {
        assert(s@.skip(start as int).drop_first() =~= s@.skip(start + 1));
        start = start + 1;
    }
    assert(trim_start(s@) == s@.skip(start as int));
    let mut end: usize = n;
    while end > start && is_whitespace(s[end - 1])
        invariant
            n == s@.len(),
            start <= end <= n,
            trim_end(s@.skip(start as int)) == trim_end(s@.subrange(start as int, end as int)),
        decreases end,
    {
        assert(s@.subrange(start as int, end as int).drop_last() =~= s@.subrange(
            start as int,
            end - 1,
        ));
        end = end - 1;
    }
    assert(s@.skip(start as int) =~= s@.subrange(start as int, n as int));
    let mut r: Vec<char> = Vec::new();
    let mut i = start;
    while i < end
        invariant
            start <= i <= end <= n,
            n == s@.len(),
            r@ =~= s@.subrange(start as int, i as int),
        decreases end - i,
    {
        r.push(s[i]);
        i = i + 1;
    }
    r
}

// ---- LIKE ------------------------------------------------------------------

/// ASCII case folding of a code point, as SQLite's `LIKE` applies it.
pub open spec fn fold_code(x: u32) -> u32 {
    if 65 <= x <= 90 {
        (x + 32) as u32
    } else {
        x
    }
}

/// Two characters are equal up to ASCII case.
pub open spec fn fold_eq(a: char, b: char) -> bool {
    fold_code(a as u32) == fold_code(b as u32)
}

pub fn chars_fold_eq(a: char, b: char) -> (r: bool)
    ensures
        r == fold_eq(a, b),
{
    let x = a as u32;
    let y = b as u32;
    let fx = if 65 <= x && x <= 90 {
        x + 32
    } else {
        x
    };
    let fy = if 65 <= y && y <= 90 {
        y + 32
    } else {
        y
    };
    fx == fy
}

/// `t LIKE p ESCAPE '\'`: `%` matches any run of characters, `_` any one
/// character, `\` makes the next pattern character literal, and other
/// characters match up to ASCII case.
pub open spec fn like(t: Seq<char>, p: Seq<char>) -> bool
    decreases p.len(), t.len(),
{
    if p.len() == 0 {
        t.len() == 0
    } else if p[0] == '%' {
        like(t, p.drop_first()) || (t.len() > 0 && like(t.drop_first(), p))
    } else if p[0] == '_' {
        t.len() > 0 && like(t.drop_first(), p.drop_first())
    } else if p[0] == '\\' {
        p.len() >= 2 && t.len() > 0 && fold_eq(t[0], p[1]) && like(t.drop_first(), p.skip(2))
    } else {
        t.len() > 0 && fold_eq(t[0], p[0]) && like(t.drop_first(), p.drop_first())
    }
}

/// Whether `t` matches the `LIKE` pattern `p` (escape character `\`).
pub fn like_match(t: &Vec<char>, p: &Vec<char>) -> (r: bool)
    ensures
        r == like(t@, p@),
{
    let n = t.len();
    let m = p.len();
    // Row for pattern position j + 2 and j + 1; cell i holds
    // like(t[i..], p[j..]).
    let mut next2: Vec<bool> = Vec::new();
    let mut next1: Vec<bool> = Vec::new();
    let mut i: usize = 0;
    while i < n
        invariant
            i <= n,
            n == t@.len(),
            m == p@.len(),
            next1@.len() == i,
            forall|k: int| 0 <= k < i ==> #[trigger] next1@[k] == like(t@.skip(k), p@.skip(m as int)),
        decreases n - i,
    {
        assert(p@.skip(m as int).len() == 0);
        next1.push(false);
        i = i + 1;
    }
    assert(p@.skip(m as int).len() == 0);
    assert(t@.skip(n as int).len() == 0);
    next1.push(true);
    let mut j: usize = m;
    while j > 0
        invariant
            j <= m,
            n == t@.len(),
            m == p@.len(),
            next1@.len() == n + 1,
            forall|k: int| 0 <= k <= n ==> #[trigger] next1@[k] == like(t@.skip(k), p@.skip(j as int)),
            j + 1 <= m ==> next2@.len() == n + 1,
            j + 1 <= m ==> forall|k: int|
                0 <= k <= n ==> #[trigger] next2@[k] == like(t@.skip(k), p@.skip(j + 1)),
        decreases j,
    {
        let jj = j - 1;
        let pc = p[jj];
        let mut cur: Vec<bool> = Vec::new();
        let mut cnt: usize = 0;
        while cnt <= n
            invariant_except_break
                cur@.len() == cnt,
                forall|q: int|
                    0 <= q < cnt ==> #[trigger] cur@[q] == like(
                        t@.skip(n - q),
                        p@.skip(jj as int),
                    ),
            invariant
                cnt <= n + 1,
                jj + 1 == j,
                j <= m,
                pc == p@[jj as int],
                n == t@.len(),
                m == p@.len(),
                next1@.len() == n + 1,
                forall|k: int|
                    0 <= k <= n ==> #[trigger] next1@[k] == like(t@.skip(k), p@.skip(j as int)),
                j + 1 <= m ==> next2@.len() == n + 1,
                j + 1 <= m ==> forall|k: int|
                    0 <= k <= n ==> #[trigger] next2@[k] == like(t@.skip(k), p@.skip(j + 1)),
            ensures
                cur@.len() == n + 1,
                forall|q: int|
                    0 <= q <= n ==> #[trigger] cur@[q] == like(t@.skip(n - q), p@.skip(jj as int)),
            decreases n + 1 - cnt,
        {
            let ti = n - cnt;
            let ghost ts = t@.skip(ti as int);
            let ghost ps = p@.skip(jj as int);
            assert(ps.drop_first() =~= p@.skip(j as int));
            assert(ps[0] == pc);
            if ti < n {
                assert(ts.drop_first() =~= t@.skip(ti + 1));
                assert(ts[0] == t@[ti as int]);
            }
            let v: bool = if pc == '%' {
                let rest = next1[ti];
                let more = if ti < n {
                    cur[cnt - 1]
                } else {
                    false
                };
                rest || more
            } else if pc == '_' {
                ti < n && next1[ti + 1]
            } else if pc == '\\' {
                if j < m && ti < n {
                    assert(ps.skip(2) =~= p@.skip(j + 1));
                    assert(ps[1] == p@[j as int]);
                    chars_fold_eq(t[ti], p[j]) && next2[ti + 1]
                } else {
                    false
                }
            } else {
                ti < n && chars_fold_eq(t[ti], pc) && next1[ti + 1]
            };
            assert(v == like(ts, ps));
            cur.push(v);
            if cnt == n {
                break;
            }
            cnt = cnt + 1;
        }
        // Reverse `cur` into position order.
        let mut row: Vec<bool> = Vec::new();
        let mut k: usize = 0;
        while k < n
            invariant
                k <= n,
                n == t@.len(),
                cur@.len() == n + 1,
                forall|q: int|
                    0 <= q <= n ==> #[trigger] cur@[q] == like(t@.skip(n - q), p@.skip(jj as int)),
                row@.len() == k,
                forall|q: int|
                    0 <= q < k ==> #[trigger] row@[q] == like(t@.skip(q), p@.skip(jj as int)),
            decreases n - k,
        {
            row.push(cur[n - k]);
            k = k + 1;
        }
        row.push(cur[0]);
        next2 = next1;
        next1 = row;
        j = jj;
    }
    assert(t@.skip(0) =~= t@);
    assert(p@.skip(0) =~= p@);
    next1[0]
}

// ---- escaping a query into a literal pattern ----------------------------------

/// A character that `LIKE` would treat specially.
pub open spec fn is_like_meta(c: char) -> bool {
    c == '\\' || c == '%' || c == '_'
}

/// `s` with `\`, `%` and `_` each preceded by `\`.
pub open spec fn escape_like(s: Seq<char>) -> Seq<char>
    decreases s.len(),
{
    if s.len() == 0 {
        Seq::empty()
    } else if is_like_meta(s[0]) {
        seq!['\\', s[0]] + escape_like(s.drop_first())
    } else {
        seq![s[0]] + escape_like(s.drop_first())
    }
}

/// The pattern that finds `q` anywhere in a text: `%`, `q` escaped, `%`.
pub open spec fn contains_pattern(q: Seq<char>) -> Seq<char> {
    seq!['%'] + escape_like(q) + seq!['%']
}

/// Builds `contains_pattern(q)`.
pub fn make_contains_pattern(q: &Vec<char>) -> (p: Vec<char>)
    ensures
        p@ == contains_pattern(q@),
{
    let mut p: Vec<char> = Vec::new();
    p.push('%');
    let n = q.len();
    let mut i: usize = 0;
    assert(q@.skip(0) =~= q@);
    while i < n
        invariant
            n == q@.len(),
            i <= n,
            seq!['%'] + escape_like(q@) =~= p@ + escape_like(q@.skip(i as int)),
        decreases n - i,
    {
        let c = q[i];
        let ghost rest = q@.skip(i as int);
        assert(rest[0] == c);
        assert(rest.drop_first() =~= q@.skip(i + 1));
        if c == '\\' || c == '%' || c == '_' {
            p.push('\\');
            p.push(c);
            assert(escape_like(rest) == seq!['\\', c] + escape_like(q@.skip(i + 1)));
        } else {
            p.push(c);
            assert(escape_like(rest) == seq![c] + escape_like(q@.skip(i + 1)));
        }
        i = i + 1;
    }
    assert(q@.skip(n as int).len() == 0);
    assert(escape_like(q@.skip(n as int)) =~= Seq::<char>::empty());
    p.push('%');
    p
}

// ---- pattern size ----------------------------------------------------------

/// The bytes that `c` takes in UTF-8.
pub open spec fn utf8_width(c: char) -> nat {
    let x = c as u32;
    if x < 0x80 {
        1
    } else if x < 0x800 {
        2
    } else if x < 0x10000 {
        3
    } else {
        4
    }
}

/// The bytes that `s` takes in UTF-8.
pub open spec fn utf8_len(s: Seq<char>) -> nat
    decreases s.len(),
{
    if s.len() == 0 {
        0
    } else {
        utf8_len(s.drop_last()) + utf8_width(s.last())
    }
}

/// A prefix takes no more bytes than the whole.
pub proof fn lemma_utf8_len_prefix(s: Seq<char>, i: int)
    requires
        0 <= i <= s.len(),
    ensures
        utf8_len(s.take(i)) <= utf8_len(s),
    decreases s.len(),
{
    if i == s.len() {
        assert(s.take(i) =~= s);
    } else {
        assert(s.drop_last().take(i) =~= s.take(i));
        lemma_utf8_len_prefix(s.drop_last(), i);
    }
}

/// The longest `LIKE` pattern, in UTF-8 bytes, that SQLite agrees to match
/// with (its default pattern-length limit); a longer one is an error.
pub const LIKE_PATTERN_MAX_BYTES: usize = 50000;

/// Whether `p` takes more UTF-8 bytes than a `LIKE` pattern may.
pub fn exceeds_like_limit(p: &Vec<char>) -> (r: bool)
    ensures
        r == (utf8_len(p@) > LIKE_PATTERN_MAX_BYTES),
{
    let mut n: usize = 0;
    let mut i: usize = 0;
    while i < p.len()
        invariant
            i <= p@.len(),
            n == utf8_len(p@.take(i as int)),
            n <= LIKE_PATTERN_MAX_BYTES,
        decreases p@.len() - i,
    {
        let x = p[i] as u32;
        let w: usize = if x < 0x80 {
            1
        } else if x < 0x800 {
            2
        } else if x < 0x10000 {
            3
        } else {
            4
        };
        proof {
            let t = p@.take(i + 1);
            assert(t.drop_last() =~= p@.take(i as int));
            assert(t.last() == p@[i as int]);
            assert(w == utf8_width(p@[i as int]));
        }
        n = n + w;
        i = i + 1;
        if n > LIKE_PATTERN_MAX_BYTES {
            proof {
                lemma_utf8_len_prefix(p@, i as int);
            }
            return true;
        }
    }
    assert(p@.take(i as int) =~= p@);
    false
}

/// `t` holds `q` as a run of consecutive characters, up to ASCII case.
pub open spec fn contains_folded(t: Seq<char>, q: Seq<char>) -> bool {
    exists|i: int| 0 <= i && i + q.len() <= t.len() && #[trigger] folded_prefix(t.skip(i), q)
}

/// `t` starts with `q`, up to ASCII case.
pub open spec fn folded_prefix(t: Seq<char>, q: Seq<char>) -> bool {
    q.len() <= t.len() && forall|k: int| 0 <= k < q.len() ==> fold_eq(#[trigger] t[k], q[k])
}

proof fn lemma_like_tail_pct(t: Seq<char>)
    ensures
        like(t, seq!['%']),
    decreases t.len(),
{
    let p = seq!['%'];
    assert(p[0] == '%');
    assert(p.drop_first() =~= Seq::<char>::empty());
    if t.len() > 0 {
        lemma_like_tail_pct(t.drop_first());
        assert(like(t.drop_first(), p));
    } else {
        assert(like(t, p.drop_first()));
    }
}

proof fn lemma_like_escaped(t: Seq<char>, q: Seq<char>, rest: Seq<char>)
    ensures
        like(t, escape_like(q) + rest) <==> (folded_prefix(t, q) && like(t.skip(q.len() as int), rest)),
    decreases q.len(),
{
    if q.len() == 0 {
        assert(escape_like(q) + rest =~= rest);
        assert(t.skip(0) =~= t);
    } else {
        let c = q[0];
        let qs = q.drop_first();
        let tail = escape_like(qs) + rest;
        if t.len() > 0 {
            lemma_like_escaped(t.drop_first(), qs, rest);
            if q.len() <= t.len() {
                assert(t.drop_first().skip(qs.len() as int) =~= t.skip(q.len() as int));
            }
            if folded_prefix(t, q) {
                assert forall|k: int| 0 <= k < qs.len() implies fold_eq(
                    #[trigger] t.drop_first()[k],
                    qs[k],
                ) by {
                    assert(fold_eq(t[k + 1], q[k + 1]));
                }
            }
            if fold_eq(t[0], c) && folded_prefix(t.drop_first(), qs) {
                assert forall|k: int| 0 <= k < q.len() implies fold_eq(#[trigger] t[k], q[k]) by {
                    if k > 0 {
                        assert(fold_eq(t.drop_first()[k - 1], qs[k - 1]));
                    }
                }
            }
        }
        if is_like_meta(c) {
            let p = seq!['\\', c] + tail;
            assert(escape_like(q) + rest =~= p);
            assert(p[0] == '\\');
            assert(p[1] == c);
            assert(p.skip(2) =~= tail);
        } else {
            let p = seq![c] + tail;
            assert(escape_like(q) + rest =~= p);
            assert(p[0] == c);
            assert(p.drop_first() =~= tail);
        }
    }
}

proof fn lemma_like_leading_pct(t: Seq<char>, r: Seq<char>)
    ensures
        like(t, seq!['%'] + r) <==> exists|i: int| 0 <= i <= t.len() && #[trigger] like(t.skip(i), r),
    decreases t.len(),
{
    let p = seq!['%'] + r;
    assert(p[0] == '%');
    assert(p.drop_first() =~= r);
    assert(t.skip(0) =~= t);
    assert(like(t, p) == (like(t, r) || (t.len() > 0 && like(t.drop_first(), p))));
    if t.len() > 0 {
        lemma_like_leading_pct(t.drop_first(), r);
        if like(t.drop_first(), p) {
            let i = choose|i: int|
                0 <= i <= t.drop_first().len() && #[trigger] like(t.drop_first().skip(i), r);
            assert(t.drop_first().skip(i) =~= t.skip(i + 1));
            assert(like(t.skip(i + 1), r));
        }
        if exists|i: int| 0 <= i <= t.len() && #[trigger] like(t.skip(i), r) {
            let i = choose|i: int| 0 <= i <= t.len() && #[trigger] like(t.skip(i), r);
            if i > 0 {
                assert(t.drop_first().skip(i - 1) =~= t.skip(i));
                assert(like(t.drop_first().skip(i - 1), r));
                assert(like(t.drop_first(), p));
            } else {
                assert(like(t, r));
            }
        }
    } else {
        if exists|i: int| 0 <= i <= t.len() && #[trigger] like(t.skip(i), r) {
            let i = choose|i: int| 0 <= i <= t.len() && #[trigger] like(t.skip(i), r);
            assert(i == 0);
            assert(like(t, r));
        }
    }
}

/// The escaped search pattern finds exactly the texts that contain the query
/// literally (up to ASCII case): `\`, `%` and `_` in a query are never
/// wildcards.
pub proof fn lemma_contains_pattern_is_literal(t: Seq<char>, q: Seq<char>)
    ensures
        like(t, contains_pattern(q)) <==> contains_folded(t, q),
{
    let r = escape_like(q) + seq!['%'];
    assert(contains_pattern(q) =~= seq!['%'] + r);
    lemma_like_leading_pct(t, r);
    if like(t, contains_pattern(q)) {
        let i = choose|i: int| 0 <= i <= t.len() && #[trigger] like(t.skip(i), r);
        lemma_like_escaped(t.skip(i), q, seq!['%']);
        assert(folded_prefix(t.skip(i), q));
    }
    if contains_folded(t, q) {
        let i = choose|i: int| 0 <= i && i + q.len() <= t.len() && #[trigger] folded_prefix(t.skip(i), q);
        lemma_like_escaped(t.skip(i), q, seq!['%']);
        lemma_like_tail_pct(t.skip(i).skip(q.len() as int));
        assert(like(t.skip(i), r));
    }
}

} // verus!
