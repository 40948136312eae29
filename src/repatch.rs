use vstd::prelude::*;
use crate::links::{
    lemma_no_links_unchanged,
    close_from, display_end, id_end, id_open, is_id_char, lemma_close_bounds, lemma_prepend_twice,
    prepend, resolve, resolve_from, rewritten_link, token_at, token_display, token_id,
};
use crate::node::NodeModel;
use crate::text::{lemma_replace_excludes, replace_char};

verus! {

/// No title in the index holds a square bracket.
pub open spec fn bracket_free_titles(idx: Map<Seq<char>, NodeModel>) -> bool {
    forall|k: Seq<char>| #[trigger]
        idx.contains_key(k) ==> !idx[k].title.contains('[') && !idx[k].title.contains(']')
}

/// The first position at or after `i` where a link by id starts, or the
/// length of `s`.
pub open spec fn first_link(s: Seq<char>, i: int) -> int
    decreases s.len() - i,
{
    if i >= s.len() {
        s.len() as int
    } else if token_at(s, i) {
        i
    } else {
        first_link(s, i + 1)
    }
}

proof fn lemma_first_link_bounds(s: Seq<char>, i: int)
    requires
        0 <= i <= s.len(),
    ensures
        i <= first_link(s, i) <= s.len(),
        forall|j: int| i <= j < first_link(s, i) ==> !token_at(s, j),
        first_link(s, i) < s.len() ==> token_at(s, first_link(s, i)),
    decreases s.len() - i,
{
    if i < s.len() && !token_at(s, i) {
        lemma_first_link_bounds(s, i + 1);
    }
}

/// Up to the first link the text is copied as it stands.
proof fn lemma_first_segment(s: Seq<char>, i: int, idx: Map<Seq<char>, NodeModel>)
    requires
        0 <= i <= s.len(),
    ensures
        resolve_from(s, i, idx) == prepend(
            s.subrange(i, first_link(s, i)),
            resolve_from(s, first_link(s, i), idx),
        ),
    decreases s.len() - i,
{
    if i >= s.len() || token_at(s, i) {
        assert(s.subrange(i, first_link(s, i)) =~= Seq::<char>::empty());
        if let Ok(t) = resolve_from(s, i, idx) {
            assert(Seq::<char>::empty() + t =~= t);
        }
    } else {
        lemma_first_segment(s, i + 1, idx);
        lemma_first_link_bounds(s, i + 1);
        let m = first_link(s, i);
        lemma_prepend_twice(seq![s[i]], s.subrange(i + 1, m), resolve_from(s, m, idx));
        assert(seq![s[i]] + s.subrange(i + 1, m) =~= s.subrange(i, m));
    }
}

proof fn lemma_close_nonneg(s: Seq<char>, j: int)
    requires
        0 <= j,
    ensures
        0 <= close_from(s, j) <= s.len(),
        j <= s.len() ==> j <= close_from(s, j),
{
    if j <= s.len() {
        lemma_close_bounds(s, j);
    }
}

proof fn lemma_close_at(s: Seq<char>, j: int, c: int)
    requires
        0 <= j <= c < s.len(),
        s[c] == ']',
        forall|k: int| j <= k < c ==> s[k] != ']',
    ensures
        close_from(s, j) == c,
    decreases c - j,
{
    if j < c {
        lemma_close_at(s, j + 1, c);
    }
}

proof fn lemma_close_shift(a: Seq<char>, b: Seq<char>, j: int)
    requires
        0 <= j,
    ensures
        close_from(a + b, a.len() + j) == a.len() + close_from(b, j),
    decreases b.len() - j,
{
    if j < b.len() {
        assert((a + b)[a.len() + j] == b[j]);
        if b[j] != ']' {
            lemma_close_shift(a, b, j + 1);
        }
    }
}

proof fn lemma_close_concat(a: Seq<char>, b: Seq<char>, j: int)
    requires
        0 <= j <= a.len(),
    ensures
        close_from(a, j) < a.len() ==> close_from(a + b, j) == close_from(a, j),
        close_from(a, j) >= a.len() ==> close_from(a + b, j) == a.len() + close_from(b, 0),
    decreases a.len() - j,
{
    if j < a.len() {
        assert((a + b)[j] == a[j]);
        if a[j] != ']' {
            lemma_close_concat(a, b, j + 1);
        }
    } else {
        lemma_close_shift(a, b, 0);
    }
}

/// Whether a link starts somewhere does not depend on what stands before.
proof fn lemma_token_shift(a: Seq<char>, b: Seq<char>, q: int)
    requires
        0 <= q,
    ensures
        token_at(a + b, a.len() + q) == token_at(b, q),
{
    let x = a + b;
    let n = a.len() as int;
    lemma_close_shift(a, b, q + 5);
    lemma_close_nonneg(b, q + 5);
    let e1 = close_from(b, q + 5);
    lemma_close_shift(a, b, e1 + 2);
    if q + 5 <= b.len() {
        assert(x.subrange(n + q, n + q + 5) =~= b.subrange(q, q + 5));
    }
    if token_at(b, q) {
        assert forall|k: int| n + q + 5 <= k < n + e1 implies is_id_char(#[trigger] x[k]) by {
            assert(x[k] == b[k - n]);
        }
        assert(x[n + e1 + 1] == b[e1 + 1]);
        assert(x[n + close_from(b, e1 + 2) + 1] == b[close_from(b, e1 + 2) + 1]);
    }
    if token_at(x, n + q) {
        assert forall|k: int| q + 5 <= k < e1 implies is_id_char(#[trigger] b[k]) by {
            assert(x[k + n] == b[k]);
        }
        assert(x[n + e1 + 1] == b[e1 + 1]);
        assert(x[n + close_from(b, e1 + 2) + 1] == b[close_from(b, e1 + 2) + 1]);
    }
}

/// A link that ends inside `a` is there whatever follows `a`.
proof fn lemma_token_prefix(a: Seq<char>, b: Seq<char>, c: Seq<char>)
    requires
        token_at(a + b, 0),
        display_end(a + b, 0) + 1 < a.len(),
    ensures
        token_at(a + c, 0),
{
    let x = a + b;
    let y = a + c;
    let e1 = id_end(x, 0);
    lemma_close_bounds(x, 5);
    lemma_close_concat(a, b, 5);
    lemma_close_concat(a, c, 5);
    lemma_close_nonneg(b, 0);
    lemma_close_nonneg(c, 0);
    assert(close_from(a, 5) == e1);
    let e2 = display_end(x, 0);
    lemma_close_concat(a, b, e1 + 2);
    lemma_close_concat(a, c, e1 + 2);
    assert(close_from(a, e1 + 2) == e2);
    assert(x.subrange(0, 5) =~= y.subrange(0, 5));
    assert forall|k: int| 5 <= k < e1 implies is_id_char(#[trigger] y[k]) by {
        assert(x[k] == y[k]);
    }
    assert(x[e1 + 1] == y[e1 + 1]);
    assert(x[e2 + 1] == y[e2 + 1]);
}

/// Where the first `]` of a rewritten link stands: after `./TITLE.md`.
pub open spec fn link_close(title: Seq<char>) -> int {
    7 + replace_char(title, ' ', seq!['%', '2', '0']).len() as int
}

proof fn lemma_link_shape(title: Seq<char>, display: Seq<char>)
    requires
        !title.contains('['),
        !title.contains(']'),
        !display.contains(']'),
    ensures
        ({
            let r = rewritten_link(title, display);
            let c = link_close(title);
            &&& r.len() == c + display.len() + 4
            &&& r[0] == '[' && r[1] == '[' && r[2] == '.' && r[3] == '/'
            &&& r[c] == ']' && r[c + 1] == '['
            &&& forall|k: int| 2 <= k < c ==> r[k] != '[' && r[k] != ']'
            &&& forall|k: int| c + 2 <= k < r.len() - 2 ==> r[k] != ']'
            &&& r[r.len() - 2] == ']' && r[r.len() - 1] == ']'
        }),
{
    let pct = seq!['%', '2', '0'];
    let enc = replace_char(title, ' ', pct);
    assert(!pct.contains('[')) by {
        assert forall|k: int| 0 <= k < pct.len() implies pct[k] != '[' by {}
    }
    assert(!pct.contains(']')) by {
        assert forall|k: int| 0 <= k < pct.len() implies pct[k] != ']' by {}
    }
    lemma_replace_excludes(title, ' ', pct, '[');
    lemma_replace_excludes(title, ' ', pct, ']');
    let r = rewritten_link(title, display);
    let c = link_close(title);
    assert forall|k: int| 2 <= k < c implies r[k] != '[' && r[k] != ']' by {
        if 4 <= k < 4 + enc.len() {
            assert(r[k] == enc[k - 4]);
        }
    }
    assert forall|k: int| c + 2 <= k < r.len() - 2 implies r[k] != ']' by {
        assert(r[k] == display[k - c - 2]);
    }
}

/// No link by id starts inside a rewritten link, whatever follows it.
proof fn lemma_link_inert(title: Seq<char>, display: Seq<char>, y: Seq<char>, q: int)
    requires
        !title.contains('['),
        !title.contains(']'),
        !display.contains(']'),
        0 <= q < rewritten_link(title, display).len(),
    ensures
        !token_at(rewritten_link(title, display) + y, q),
{
    let r = rewritten_link(title, display);
    let x = r + y;
    let c = link_close(title);
    let n = r.len() as int;
    lemma_link_shape(title, display);
    if token_at(x, q) {
        let w = x.subrange(q, q + 5);
        assert(w == id_open());
        assert(x[q] == '[' && x[q + 1] == '[' && x[q + 2] == 'i') by {
            assert(w[0] == x[q] && w[1] == x[q + 1] && w[2] == x[q + 2]);
        }
        if q <= 1 {
            assert(x[2] == r[2]);
        } else if q <= c {
            assert(x[q] == r[q]);
        } else if q + 5 <= n - 2 {
            assert forall|k: int| q + 5 <= k < n - 2 implies x[k] != ']' by {
                assert(x[k] == r[k]);
            }
            assert(x[n - 2] == r[n - 2]);
            lemma_close_at(x, q + 5, n - 2);
            assert(x[n - 1] == r[n - 1]);
        } else if q <= n - 2 {
            assert(w[n - 2 - q] == x[n - 2]);
            assert(x[n - 2] == r[n - 2]);
        } else {
            assert(x[q] == r[q]);
        }
    }
}

proof fn lemma_display_plain(s: Seq<char>, i: int)
    requires
        token_at(s, i),
    ensures
        !token_display(s, i).contains(']'),
{
    let d = token_display(s, i);
    let b = id_end(s, i) + 2;
    lemma_close_bounds(s, b);
    assert forall|k: int| 0 <= k < d.len() implies d[k] != ']' by {
        assert(d[k] == s[b + k]);
    }
}

/// Text that starts no link by itself starts none when a rewritten link
/// follows it.
proof fn lemma_no_link_into_rewrite(
    a: Seq<char>,
    t: Seq<char>,
    title: Seq<char>,
    disp: Seq<char>,
    rest: Seq<char>,
)
    requires
        1 <= a.len(),
        !token_at(a + t, 0),
        !title.contains('['),
        !title.contains(']'),
        !disp.contains(']'),
    ensures
        !token_at(a + (rewritten_link(title, disp) + rest), 0),
{
    let r = rewritten_link(title, disp);
    let w = r + rest;
    let x = a + w;
    let l = a.len() as int;
    lemma_link_shape(title, disp);
    let c = link_close(title);
    assert forall|k: int| 0 <= k < r.len() implies #[trigger] x[l + k] == r[k] by {
        assert(x[l + k] == w[k]);
    }
    assert forall|k: int| 0 <= k < c implies #[trigger] w[k] != ']' by {
        assert(w[k] == r[k]);
    }
    assert(w[c] == r[c]);
    lemma_close_at(w, 0, c);
    lemma_close_at(w, 1, c);
    assert(x[l] == r[0] && x[l + 1] == r[1]);
    if token_at(x, 0) {
        let win = x.subrange(0, 5);
        assert(win == id_open());
        if l <= 3 {
            assert(win[l + 1] == x[l + 1]);
        } else if l == 4 {
            assert(win[4] == x[4]);
        } else {
            lemma_close_concat(a, w, 5);
            let e1 = id_end(x, 0);
            if close_from(a, 5) >= l {
                assert(is_id_char(x[l]));
            } else if e1 + 1 == l {
                lemma_close_shift(a, w, 1);
                assert(x[l + c + 1] == r[c + 1]);
            } else {
                lemma_close_concat(a, w, e1 + 2);
                if close_from(a, e1 + 2) >= l {
                    assert(x[l + c + 1] == r[c + 1]);
                } else {
                    let e2 = display_end(x, 0);
                    if e2 + 1 == l {
                        assert(x[e2 + 1] == r[0]);
                    } else {
                        lemma_token_prefix(a, w, t);
                    }
                }
            }
        }
    }
}

/// A link cannot start at a copied character and run on into what the rest
/// of the text became.
proof fn lemma_no_link_at_copy(s: Seq<char>, i: int, idx: Map<Seq<char>, NodeModel>, w: Seq<char>)
    requires
        0 <= i < s.len(),
        !token_at(s, i),
        bracket_free_titles(idx),
        resolve_from(s, first_link(s, i + 1), idx) == Ok::<Seq<char>, Seq<char>>(w),
    ensures
        !token_at(s.subrange(i, first_link(s, i + 1)) + w, 0),
{
    let m = first_link(s, i + 1);
    lemma_first_link_bounds(s, i + 1);
    let a = s.subrange(i, m);
    let len = s.len() as int;
    assert(s =~= s.subrange(0, i) + s.subrange(i, len));
    lemma_token_shift(s.subrange(0, i), s.subrange(i, len), 0);
    if m == len {
        assert(a + w =~= s.subrange(i, len));
    } else {
        let id = token_id(s, m);
        let disp = token_display(s, m);
        let rest = resolve_from(s, display_end(s, m) + 2, idx)->Ok_0;
        assert(w == rewritten_link(idx[id].title, disp) + rest);
        lemma_display_plain(s, m);
        assert(a + s.subrange(m, len) =~= s.subrange(i, len));
        lemma_no_link_into_rewrite(a, s.subrange(m, len), idx[id].title, disp, rest);
    }
}

proof fn lemma_output_link_free(s: Seq<char>, i: int, idx: Map<Seq<char>, NodeModel>)
    requires
        0 <= i <= s.len(),
        bracket_free_titles(idx),
        resolve_from(s, i, idx) is Ok,
    ensures
        forall|q: int| !token_at(#[trigger] resolve_from(s, i, idx)->Ok_0, q),
    decreases s.len() - i,
{
    let u = resolve_from(s, i, idx)->Ok_0;
    if i >= s.len() {
        assert(u.len() == 0);
    } else if token_at(s, i) {
        let id = token_id(s, i);
        let title = idx[id].title;
        let disp = token_display(s, i);
        let r = rewritten_link(title, disp);
        let e = display_end(s, i) + 2;
        lemma_output_link_free(s, e, idx);
        let rest = resolve_from(s, e, idx)->Ok_0;
        assert(u == r + rest);
        lemma_display_plain(s, i);
        assert forall|q: int| !token_at(u, q) by {
            if 0 <= q < r.len() {
                lemma_link_inert(title, disp, rest, q);
            } else if q >= r.len() {
                lemma_token_shift(r, rest, q - r.len());
            }
        }
    } else {
        lemma_output_link_free(s, i + 1, idx);
        let u1 = resolve_from(s, i + 1, idx)->Ok_0;
        assert(u == seq![s[i]] + u1);
        lemma_first_segment(s, i + 1, idx);
        lemma_first_link_bounds(s, i + 1);
        let m = first_link(s, i + 1);
        let w = resolve_from(s, m, idx)->Ok_0;
        assert(u1 == s.subrange(i + 1, m) + w);
        assert(u =~= s.subrange(i, m) + w);
        lemma_no_link_at_copy(s, i, idx, w);
        assert forall|q: int| !token_at(u, q) by {
            if q >= 1 {
                lemma_token_shift(seq![s[i]], u1, q - 1);
            }
        }
    }
}

/// When no title in the index holds a square bracket, patching a text twice
/// gives what patching it once gives: a first pass leaves no link by id behind.
pub proof fn lemma_patch_twice(s: Seq<char>, idx: Map<Seq<char>, NodeModel>)
    requires
        bracket_free_titles(idx),
        resolve(s, idx) is Ok,
    ensures
        resolve(resolve(s, idx)->Ok_0, idx) == resolve(s, idx),
{
    let u = resolve(s, idx)->Ok_0;
    lemma_output_link_free(s, 0, idx);
    assert forall|q: int| 0 <= q < u.len() implies !token_at(u, q) by {}
    lemma_no_links_unchanged(u, idx);
}

} // verus!
