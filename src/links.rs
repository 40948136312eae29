use vstd::prelude::*;
use crate::index::NodeIndex;
use crate::node::{Node, NodeModel};
use crate::text::{replace_char, replace_char_exec, chars_of, collect_range, push_char};

verus! {

/// A character that may stand in the id of a link: an upper-case hex digit
/// or a dash.
pub open spec fn is_id_char(c: char) -> bool {
    ('0' <= c && c <= '9') || ('A' <= c && c <= 'F') || c == '-'
}

/// The position of the first `]` at or after `j`, or the length of `s`.
pub open spec fn close_from(s: Seq<char>, j: int) -> int
    decreases s.len() - j,
{
    if j >= s.len() {
        s.len() as int
    } else if s[j] == ']' {
        j
    } else {
        close_from(s, j + 1)
    }
}

/// The text that opens a link by id.
pub open spec fn id_open() -> Seq<char> {
    seq!['[', '[', 'i', 'd', ':']
}

/// Where the id of a link that starts at `i` ends.
pub open spec fn id_end(s: Seq<char>, i: int) -> int {
    close_from(s, i + 5)
}

/// Where the display text of a link that starts at `i` ends.
pub open spec fn display_end(s: Seq<char>, i: int) -> int {
    close_from(s, id_end(s, i) + 2)
}

/// Whether a link `[[id:ID][DISPLAY]]` starts at `i`: ID is one or more
/// id characters, DISPLAY one or more characters other than `]`.
pub open spec fn token_at(s: Seq<char>, i: int) -> bool {
    let a = i + 5;
    let e1 = id_end(s, i);
    let b = e1 + 2;
    let e2 = display_end(s, i);
    &&& 0 <= i
    &&& a <= s.len()
    &&& s.subrange(i, a) == id_open()
    &&& a < e1 && e1 + 1 < s.len() && s[e1 + 1] == '['
    &&& forall|k: int| a <= k < e1 ==> is_id_char(#[trigger] s[k])
    &&& b < e2 && e2 + 1 < s.len() && s[e2 + 1] == ']'
}

/// The id named by the link at `i`.
pub open spec fn token_id(s: Seq<char>, i: int) -> Seq<char> {
    s.subrange(i + 5, id_end(s, i))
}

/// The display text of the link at `i`.
pub open spec fn token_display(s: Seq<char>, i: int) -> Seq<char> {
    s.subrange(id_end(s, i) + 2, display_end(s, i))
}

/// The relative export file of a note with this title, spaces written `%20`.
pub open spec fn link_target(title: Seq<char>) -> Seq<char> {
    seq!['.', '/'] + replace_char(title, ' ', seq!['%', '2', '0']) + seq!['.', 'm', 'd']
}

/// The link by file name that replaces a link by id.
pub open spec fn rewritten_link(title: Seq<char>, display: Seq<char>) -> Seq<char> {
    seq!['[', '['] + link_target(title) + seq![']', '['] + display + seq![']', ']']
}

/// `p` put in front of a successful result; an error passes through.
pub open spec fn prepend(p: Seq<char>, r: Result<Seq<char>, Seq<char>>) -> Result<
    Seq<char>,
    Seq<char>,
> {
    match r {
        Ok(t) => Ok(p + t),
        Err(e) => Err(e),
    }
}

/// The text from `i` on with each link by id rewritten, scanning left to
/// right; or the first id that the index lacks.
pub open spec fn resolve_from(s: Seq<char>, i: int, idx: Map<Seq<char>, NodeModel>) -> Result<
    Seq<char>,
    Seq<char>,
>
    decreases s.len() - i,
{
    if i < 0 || i >= s.len() {
        Ok(Seq::empty())
    } else if token_at(s, i) {
        let id = token_id(s, i);
        if idx.contains_key(id) {
            prepend(
                rewritten_link(idx[id].title, token_display(s, i)),
                resolve_from(s, display_end(s, i) + 2, idx),
            )
        } else {
            Err(id)
        }
    } else {
        prepend(seq![s[i]], resolve_from(s, i + 1, idx))
    }
}

/// The whole text with each link by id rewritten, or the first missing id.
pub open spec fn resolve(s: Seq<char>, idx: Map<Seq<char>, NodeModel>) -> Result<
    Seq<char>,
    Seq<char>,
> {
    resolve_from(s, 0, idx)
}

pub(crate) proof fn lemma_prepend_twice(p: Seq<char>, q: Seq<char>, r: Result<Seq<char>, Seq<char>>)
    ensures
        prepend(p, prepend(q, r)) == prepend(p + q, r),
{
    if let Ok(t) = r {
        assert(p + (q + t) =~= (p + q) + t);
    }
}

pub(crate) proof fn lemma_close_bounds(s: Seq<char>, j: int)
    requires
        0 <= j <= s.len(),
    ensures
        j <= close_from(s, j) <= s.len(),
        close_from(s, j) < s.len() ==> s[close_from(s, j)] == ']',
        forall|k: int| j <= k < close_from(s, j) ==> s[k] != ']',
    decreases s.len() - j,
{
    if j < s.len() && s[j] != ']' {
        lemma_close_bounds(s, j + 1);
    }
}

fn close_exec(v: &Vec<char>, j: usize) -> (e: usize)
    requires
        j <= v@.len(),
    ensures
        e == close_from(v@, j as int),
{
    let mut k: usize = j;
    while k < v.len() && v[k] != ']'
        invariant
            j <= k <= v@.len(),
            close_from(v@, j as int) == close_from(v@, k as int),
        decreases v.len() - k,
    {
        k = k + 1;
    }
    k
}

fn is_id_char_exec(c: char) -> (r: bool)
    ensures
        r == is_id_char(c),
{
    ('0' <= c && c <= '9') || ('A' <= c && c <= 'F') || c == '-'
}

/// Where the id and the display text of the link at `i` end, if one starts
/// there.
fn token_exec(v: &Vec<char>, i: usize) -> (r: Option<(usize, usize)>)
    requires
        i < v@.len(),
    ensures
        r is Some <==> token_at(v@, i as int),
        r matches Some((e1, e2)) ==> e1 == id_end(v@, i as int) && e2 == display_end(v@, i as int),
{
    let s = Ghost(v@);
    if v.len() - i < 5 {
        return None;
    }
    if !(v[i] == '[' && v[i + 1] == '[' && v[i + 2] == 'i' && v[i + 3] == 'd' && v[i + 4] == ':') {
        proof {
            if token_at(s@, i as int) {
                assert(s@.subrange(i as int, i + 5)[0] == s@[i as int]);
                assert(s@.subrange(i as int, i + 5)[1] == s@[i + 1]);
                assert(s@.subrange(i as int, i + 5)[2] == s@[i + 2]);
                assert(s@.subrange(i as int, i + 5)[3] == s@[i + 3]);
                assert(s@.subrange(i as int, i + 5)[4] == s@[i + 4]);
            }
        }
        return None;
    }
    assert(s@.subrange(i as int, i + 5) =~= id_open());
    let a = i + 5;
    let e1 = close_exec(v, a);
    proof {
        lemma_close_bounds(s@, a as int);
    }
    if !(a < e1 && e1 < v.len() - 1 && v[e1 + 1] == '[') {
        return None;
    }
    let mut k: usize = a;
    while k < e1
        invariant
            a <= k <= e1 < v@.len(),
            a == i + 5,
            e1 == id_end(v@, i as int),
            forall|m: int| a <= m < k ==> is_id_char(#[trigger] s@[m]),
            s@ == v@,
        decreases e1 - k,
    {
        if !is_id_char_exec(v[k]) {
            proof {
                if token_at(v@, i as int) {
                    assert(id_end(v@, i as int) == e1);
                    assert(is_id_char(v@[k as int]));
                }
            }
            return None;
        }
        k = k + 1;
    }
    let b = e1 + 2;
    let e2 = close_exec(v, b);
    proof {
        lemma_close_bounds(s@, b as int);
    }
    if !(b < e2 && e2 < v.len() - 1 && v[e2 + 1] == ']') {
        return None;
    }
    Some((e1, e2))
}

/// The text `[[./TITLE.md][DISPLAY]]` with each space of the title written
/// `%20`.
pub fn rewritten_link_exec(title: &str, display: &str) -> (r: String)
    ensures
        r@ == rewritten_link(title@, display@),
{
    let enc = replace_char_exec(title, ' ', "%20");
    let mut r = String::new();
    r.append("[[./");
    r.append(enc.as_str());
    r.append(".md][");
    r.append(display);
    r.append("]]");
    proof {
        reveal_strlit("%20");
        reveal_strlit("[[./");
        reveal_strlit(".md][");
        reveal_strlit("]]");
        assert("%20"@ =~= seq!['%', '2', '0']);
        assert(r@ =~= rewritten_link(title@, display@));
    }
    r
}

/// Rewrites each link by id in `text` into a link to the target's export
/// file; fails with the first id that the index does not hold.
pub fn resolve_links(text: &str, index: &NodeIndex) -> (r: Result<String, String>)
    requires
        index.wf(),
    ensures
        r matches Ok(t) ==> resolve(text@, index@) == Ok::<Seq<char>, Seq<char>>(t@),
        r matches Err(e) ==> resolve(text@, index@) == Err::<Seq<char>, Seq<char>>(e@),
{
    let v = chars_of(text);
    let mut out = String::new();
    let mut i: usize = 0;
    assert(out@ + Seq::<char>::empty() =~= out@);
    while i < v.len()
        invariant
            v@ == text@,
            index.wf(),
            i <= v@.len(),
            resolve(v@, index@) == prepend(out@, resolve_from(v@, i as int, index@)),
        decreases v.len() - i,
    {
        match token_exec(&v, i) {
            Some((e1, e2)) => {
                let id = collect_range(&v, i + 5, e1);
                match index.get(&id) {
                    None => {
                        return Err(id);
                    },
                    Some(n) => {
                        let disp = collect_range(&v, e1 + 2, e2);
                        let link = rewritten_link_exec(n.title.as_str(), disp.as_str());
                        proof {
                            lemma_prepend_twice(
                                out@,
                                link@,
                                resolve_from(v@, e2 + 2, index@),
                            );
                        }
                        assert(resolve_from(v@, i as int, index@) == prepend(
                            link@,
                            resolve_from(v@, e2 + 2, index@),
                        ));
                        out.append(link.as_str());
                        i = e2 + 2;
                    },
                }
            },
            None => {
                proof {
                    lemma_prepend_twice(out@, seq![v@[i as int]], resolve_from(v@, i + 1, index@));
                }
                let ghost before = out@;
                push_char(&mut out, v[i]);
                assert(out@ =~= before + seq![v@[i as int]]);
                i = i + 1;
            },
        }
    }
    assert(out@ + Seq::<char>::empty() =~= out@);
    Ok(out)
}

proof fn lemma_plain_from(s: Seq<char>, i: int, idx: Map<Seq<char>, NodeModel>)
    requires
        0 <= i <= s.len(),
        forall|j: int| i <= j < s.len() ==> !token_at(s, j),
    ensures
        resolve_from(s, i, idx) == Ok::<Seq<char>, Seq<char>>(s.subrange(i, s.len() as int)),
    decreases s.len() - i,
{
    if i < s.len() {
        lemma_plain_from(s, i + 1, idx);
        assert(seq![s[i]] + s.subrange(i + 1, s.len() as int) =~= s.subrange(i, s.len() as int));
    } else {
        assert(s.subrange(i, s.len() as int) =~= Seq::<char>::empty());
    }
}

/// A text in which no link by id starts anywhere comes back unchanged.
pub proof fn lemma_no_links_unchanged(s: Seq<char>, idx: Map<Seq<char>, NodeModel>)
    requires
        forall|i: int| 0 <= i < s.len() ==> !token_at(s, i),
    ensures
        resolve(s, idx) == Ok::<Seq<char>, Seq<char>>(s),
{
    lemma_plain_from(s, 0, idx);
    assert(s.subrange(0, s.len() as int) =~= s);
}

/// When the first link of a text names an id that the index lacks, resolving
/// the text fails with that id: the link is neither dropped nor kept as is.
pub proof fn lemma_missing_target_fails(s: Seq<char>, i: int, idx: Map<Seq<char>, NodeModel>)
    requires
        token_at(s, i),
        !idx.contains_key(token_id(s, i)),
        forall|j: int| 0 <= j < i ==> !token_at(s, j),
    ensures
        resolve(s, idx) == Err::<Seq<char>, Seq<char>>(token_id(s, i)),
{
    lemma_fails_from(s, 0, i, idx);
}

proof fn lemma_fails_from(s: Seq<char>, j: int, i: int, idx: Map<Seq<char>, NodeModel>)
    requires
        0 <= j <= i,
        token_at(s, i),
        !idx.contains_key(token_id(s, i)),
        forall|k: int| 0 <= k < i ==> !token_at(s, k),
    ensures
        resolve_from(s, j, idx) == Err::<Seq<char>, Seq<char>>(token_id(s, i)),
    decreases i - j,
{
    if j < i {
        lemma_fails_from(s, j + 1, i, idx);
    }
}

/// A link whose target is not in the index, and the file it was found in.
pub struct LinkResolutionError {
    pub id: String,
    pub source_file: String,
}

/// The patched text of `node`'s file, whose contents are `contents`.
pub fn patch_contents(node: &Node, contents: &str, index: &NodeIndex) -> (r: Result<
    String,
    LinkResolutionError,
>)
    requires
        index.wf(),
    ensures
        r matches Ok(t) ==> resolve(contents@, index@) == Ok::<Seq<char>, Seq<char>>(t@),
        r matches Err(e) ==> resolve(contents@, index@) == Err::<Seq<char>, Seq<char>>(e.id@)
            && e.source_file@ == node.file@,
{
    match resolve_links(contents, index) {
        Ok(t) => Ok(t),
        Err(id) => Err(LinkResolutionError { id, source_file: node.file.clone() }),
    }
}

} // verus!
