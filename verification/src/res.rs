use std::cmp::Ordering;

use vstd::prelude::*;
use vstd::laws_cmp::obeys_partial_cmp_spec_properties;
use vstd::laws_eq::{obeys_eq_spec_properties, obeys_view_eq};
use vstd::std_specs::cmp::{PartialEqSpec, PartialOrdSpec};
use vstd::string::*;

use crate::build_graph::total_order;

verus! {

/// `/` and `\` both separate path components.
pub open spec fn is_separator(c: char) -> bool {
    c == '/' || c == '\\'
}

/// The pieces of `s` between separators, empty pieces included. There is
/// always at least one piece.
pub open spec fn split_path(s: Seq<char>) -> Seq<Seq<char>>
    decreases s.len(),
{
    if s.len() == 0 {
        seq![Seq::empty()]
    } else {
        let rest = split_path(s.drop_last());
        if is_separator(s.last()) {
            rest.push(Seq::empty())
        } else {
            rest.update(rest.len() - 1, rest.last().push(s.last()))
        }
    }
}

/// The component `..`.
pub open spec fn parent_component() -> Seq<char> {
    seq!['.', '.']
}

/// Adds one piece to the resolved components: empty pieces and `.` vanish,
/// `..` removes the last component (above the root of an absolute path it
/// vanishes, in a relative path it stays when nothing is left to remove).
pub open spec fn resolve_step(st: Seq<Seq<char>>, c: Seq<char>, absolute: bool) -> Seq<Seq<char>> {
    if c.len() == 0 || c == seq!['.'] {
        st
    } else if c == parent_component() {
        if st.len() > 0 && st.last() != parent_component() {
            st.drop_last()
        } else if absolute {
            st
        } else {
            st.push(c)
        }
    } else {
        st.push(c)
    }
}

/// The components left after resolving every piece in order.
pub open spec fn resolve(segs: Seq<Seq<char>>, absolute: bool) -> Seq<Seq<char>>
    decreases segs.len(),
{
    if segs.len() == 0 {
        Seq::empty()
    } else {
        resolve_step(resolve(segs.drop_last(), absolute), segs.last(), absolute)
    }
}

/// The components joined by `/`.
pub open spec fn join_path(segs: Seq<Seq<char>>) -> Seq<char>
    decreases segs.len(),
{
    if segs.len() == 0 {
        Seq::empty()
    } else if segs.len() == 1 {
        segs[0]
    } else {
        join_path(segs.drop_last()) + seq!['/'] + segs.last()
    }
}

/// A path that starts at the root.
pub open spec fn is_absolute(s: Seq<char>) -> bool {
    s.len() > 0 && is_separator(s[0])
}

/// The normal form of a path: `.` and empty components removed, `..`
/// applied, components joined by `/`, and a leading `/` kept.
pub open spec fn normalize(s: Seq<char>) -> Seq<char> {
    let body = join_path(resolve(split_path(s), is_absolute(s)));
    if is_absolute(s) {
        seq!['/'] + body
    } else {
        body
    }
}

/// No character of `c` separates components.
pub open spec fn no_separator(c: Seq<char>) -> bool {
    forall|k: int| 0 <= k < c.len() ==> !is_separator(#[trigger] c[k])
}

/// Components as `resolve` leaves them: none is empty, `.` or holds a
/// separator; an absolute path has no `..`, and in a relative one `..`
/// only comes before every other component.
pub open spec fn resolved(segs: Seq<Seq<char>>, absolute: bool) -> bool {
    &&& forall|i: int| 0 <= i < segs.len() ==> (#[trigger] segs[i]).len() > 0 && segs[i] != seq!['.'] && no_separator(segs[i])
    &&& absolute ==> forall|i: int| 0 <= i < segs.len() ==> #[trigger] segs[i] != parent_component()
    &&& forall|i: int, j: int| 0 <= i < j < segs.len() && #[trigger] segs[j] == parent_component() ==> #[trigger] segs[i] == parent_component()
}

proof fn lemma_split_len(s: Seq<char>)
    ensures
        split_path(s).len() >= 1,
    decreases s.len(),
{
    if s.len() > 0 {
        lemma_split_len(s.drop_last());
    }
}

proof fn lemma_split_pieces(s: Seq<char>)
    ensures
        forall|i: int| 0 <= i < split_path(s).len() ==> no_separator(#[trigger] split_path(s)[i]),
    decreases s.len(),
{
    if s.len() > 0 {
        lemma_split_pieces(s.drop_last());
        lemma_split_len(s.drop_last());
        let rest = split_path(s.drop_last());
        if !is_separator(s.last()) {
            let l = rest.last().push(s.last());
            assert(no_separator(l)) by {
                assert(no_separator(rest[rest.len() - 1]));
            }
        }
        assert forall|i: int| 0 <= i < split_path(s).len() implies no_separator(#[trigger] split_path(s)[i]) by {
            if i < rest.len() - 1 {
                assert(split_path(s)[i] == rest[i]);
            }
        }
    }
}

proof fn lemma_split_single(y: Seq<char>)
    requires
        no_separator(y),
    ensures
        split_path(y) == seq![y],
    decreases y.len(),
{
    if y.len() > 0 {
        let p = y.drop_last();
        assert(no_separator(p)) by {
            assert forall|k: int| 0 <= k < p.len() implies !is_separator(#[trigger] p[k]) by {
                assert(p[k] == y[k]);
            }
        }
        lemma_split_single(p);
        assert(!is_separator(y[y.len() - 1]));
        assert(p.push(y.last()) =~= y);
        assert(split_path(p) == seq![p]);
        assert(split_path(y) =~= seq![y]);
    } else {
        assert(y =~= Seq::<char>::empty());
        assert(split_path(y) =~= seq![y]);
    }
}

proof fn lemma_split_concat(x: Seq<char>, y: Seq<char>)
    ensures
        split_path(x + seq!['/'] + y) == split_path(x) + split_path(y),
    decreases y.len(),
{
    let s = x + seq!['/'] + y;
    if y.len() == 0 {
        assert(s.drop_last() =~= x);
        assert(split_path(s) =~= split_path(x) + split_path(y));
    } else {
        let y2 = y.drop_last();
        assert(s.drop_last() =~= x + seq!['/'] + y2);
        lemma_split_concat(x, y2);
        lemma_split_len(y2);
        lemma_split_len(x);
        assert(s.last() == y.last());
        assert(split_path(s) =~= split_path(x) + split_path(y));
    }
}

proof fn lemma_split_join(segs: Seq<Seq<char>>)
    requires
        segs.len() >= 1,
        forall|i: int| 0 <= i < segs.len() ==> no_separator(#[trigger] segs[i]),
    ensures
        split_path(join_path(segs)) == segs,
    decreases segs.len(),
{
    if segs.len() == 1 {
        assert(no_separator(segs[0]));
        lemma_split_single(segs[0]);
        assert(seq![segs[0]] =~= segs);
    } else {
        let init = segs.drop_last();
        assert forall|i: int| 0 <= i < init.len() implies no_separator(#[trigger] init[i]) by {
            assert(init[i] == segs[i]);
        }
        lemma_split_join(init);
        lemma_split_concat(join_path(init), segs.last());
        assert(no_separator(segs[segs.len() - 1]));
        lemma_split_single(segs.last());
        assert(init + seq![segs.last()] =~= segs);
    }
}

proof fn lemma_join_starts(segs: Seq<Seq<char>>)
    requires
        segs.len() >= 1,
        segs[0].len() > 0,
    ensures
        join_path(segs).len() > 0,
        join_path(segs)[0] == segs[0][0],
    decreases segs.len(),
{
    if segs.len() > 1 {
        lemma_join_starts(segs.drop_last());
    }
}

proof fn lemma_resolve_resolved(segs: Seq<Seq<char>>, absolute: bool)
    requires
        forall|i: int| 0 <= i < segs.len() ==> no_separator(#[trigger] segs[i]),
    ensures
        resolved(resolve(segs, absolute), absolute),
    decreases segs.len(),
{
    if segs.len() > 0 {
        let init = segs.drop_last();
        assert forall|i: int| 0 <= i < init.len() implies no_separator(#[trigger] init[i]) by {
            assert(init[i] == segs[i]);
        }
        lemma_resolve_resolved(init, absolute);
        let st = resolve(init, absolute);
        let c = segs.last();
        assert(no_separator(segs[segs.len() - 1]));
        let out = resolve(segs, absolute);
        if c.len() == 0 || c == seq!['.'] {
        } else if c == parent_component() {
            if st.len() > 0 && st.last() != parent_component() {
                assert forall|i: int| 0 <= i < out.len() implies (#[trigger] out[i]).len() > 0 && out[i] != seq!['.'] && no_separator(out[i]) by {
                    assert(out[i] == st[i]);
                }
                assert forall|i: int, j: int| 0 <= i < j < out.len() && #[trigger] out[j] == parent_component() implies #[trigger] out[i] == parent_component() by {
                    assert(out[i] == st[i] && out[j] == st[j]);
                }
            } else if !absolute {
                assert forall|i: int, j: int| 0 <= i < j < out.len() && #[trigger] out[j] == parent_component() implies #[trigger] out[i] == parent_component() by {
                    assert(out[i] == st[i]);
                    if j < st.len() {
                        assert(out[j] == st[j]);
                    } else {
                        assert(st.last() == st[st.len() - 1]);
                        if i < st.len() - 1 {
                            assert(st[st.len() - 1] == parent_component());
                        }
                    }
                }
                assert(c.len() == 2 && c[0] == '.' && c[1] == '.');
                assert(c != seq!['.']);
                assert forall|i: int| 0 <= i < out.len() implies (#[trigger] out[i]).len() > 0 && out[i] != seq!['.'] && no_separator(out[i]) by {
                    if i < st.len() {
                        assert(out[i] == st[i]);
                    }
                }
            }
        } else {
            assert forall|i: int, j: int| 0 <= i < j < out.len() && #[trigger] out[j] == parent_component() implies #[trigger] out[i] == parent_component() by {
                assert(out[i] == st[i]);
                assert(j < st.len());
                assert(out[j] == st[j]);
            }
            assert forall|i: int| 0 <= i < out.len() implies (#[trigger] out[i]).len() > 0 && out[i] != seq!['.'] && no_separator(out[i]) by {
                if i < st.len() {
                    assert(out[i] == st[i]);
                }
            }
        }
    }
}

proof fn lemma_resolve_fixed(segs: Seq<Seq<char>>, absolute: bool)
    requires
        resolved(segs, absolute),
    ensures
        resolve(segs, absolute) == segs,
    decreases segs.len(),
{
    if segs.len() > 0 {
        let init = segs.drop_last();
        assert(resolved(init, absolute)) by {
            assert forall|i: int| 0 <= i < init.len() implies (#[trigger] init[i]).len() > 0 && init[i] != seq!['.'] && no_separator(init[i]) by {
                assert(init[i] == segs[i]);
            }
            assert forall|i: int, j: int| 0 <= i < j < init.len() && #[trigger] init[j] == parent_component() implies #[trigger] init[i] == parent_component() by {
                assert(init[i] == segs[i] && init[j] == segs[j]);
            }
            if absolute {
                assert forall|i: int| 0 <= i < init.len() implies #[trigger] init[i] != parent_component() by {
                    assert(init[i] == segs[i]);
                }
            }
        }
        lemma_resolve_fixed(init, absolute);
        let c = segs.last();
        assert(segs[segs.len() - 1].len() > 0 && segs[segs.len() - 1] != seq!['.']);
        if c == parent_component() {
            assert(!absolute) by {
                if absolute {
                    assert(segs[segs.len() - 1] != parent_component());
                }
            }
            if init.len() > 0 {
                assert(init.last() == segs[init.len() - 1]);
                assert(segs[init.len() - 1] == parent_component());
            }
        }
        assert(init.push(c) =~= segs);
    }
}

proof fn lemma_resolve_skips_empty(segs: Seq<Seq<char>>, absolute: bool)
    ensures
        resolve(seq![Seq::<char>::empty()] + segs, absolute) == resolve(segs, absolute),
    decreases segs.len(),
{
    let all = seq![Seq::<char>::empty()] + segs;
    if segs.len() == 0 {
        assert(all.drop_last() =~= Seq::<Seq<char>>::empty());
        assert(resolve(Seq::<Seq<char>>::empty(), absolute) == Seq::<Seq<char>>::empty());
        assert(all.last() == Seq::<char>::empty());
        assert(resolve(all, absolute) == resolve_step(resolve(all.drop_last(), absolute), all.last(), absolute));
    } else {
        assert(all.drop_last() =~= seq![Seq::<char>::empty()] + segs.drop_last());
        lemma_resolve_skips_empty(segs.drop_last(), absolute);
        assert(all.last() == segs.last());
    }
}

/// Normalizing is idempotent: a path in normal form is its own normal form.
pub proof fn lemma_normalize_idempotent(s: Seq<char>)
    ensures
        normalize(normalize(s)) == normalize(s),
{
    let absolute = is_absolute(s);
    lemma_split_pieces(s);
    let segs = resolve(split_path(s), absolute);
    lemma_resolve_resolved(split_path(s), absolute);
    let body = join_path(segs);
    let t = normalize(s);
    assert forall|i: int| 0 <= i < segs.len() implies no_separator(#[trigger] segs[i]) by {
    }
    if absolute {
        assert(t == seq!['/'] + body);
        assert(is_absolute(t));
        assert(t =~= Seq::<char>::empty() + seq!['/'] + body);
        lemma_split_concat(Seq::<char>::empty(), body);
        assert(split_path(Seq::<char>::empty()) == seq![Seq::<char>::empty()]);
        if segs.len() == 0 {
            assert(body == Seq::<char>::empty());
            assert(split_path(body) == seq![Seq::<char>::empty()]);
            lemma_resolve_skips_empty(Seq::<Seq<char>>::empty(), true);
            lemma_resolve_skips_empty(seq![Seq::<char>::empty()], true);
            assert(seq![Seq::<char>::empty()] + Seq::<Seq<char>>::empty() =~= seq![Seq::<char>::empty()]);
            assert(split_path(t) =~= seq![Seq::<char>::empty()] + seq![Seq::<char>::empty()]);
        } else {
            lemma_split_join(segs);
            lemma_resolve_skips_empty(segs, true);
            lemma_resolve_fixed(segs, true);
        }
    } else {
        assert(t == body);
        if segs.len() == 0 {
            assert(body == Seq::<char>::empty());
            assert(!is_absolute(t));
            assert(split_path(t) == seq![Seq::<char>::empty()]);
            lemma_resolve_skips_empty(Seq::<Seq<char>>::empty(), false);
            assert(seq![Seq::<char>::empty()] + Seq::<Seq<char>>::empty() =~= seq![Seq::<char>::empty()]);
        } else {
            lemma_join_starts(segs);
            assert(segs[0].len() > 0 && no_separator(segs[0]));
            assert(!is_separator(segs[0][0]));
            assert(!is_absolute(t));
            lemma_split_join(segs);
            lemma_resolve_fixed(segs, false);
        }
    }
}

/// What `char::to_lowercase` yields for a character.
pub uninterp spec fn lowercase(c: char) -> Seq<char>;

/// Each character replaced by its lowercase form.
pub open spec fn fold_case(s: Seq<char>) -> Seq<char>
    decreases s.len(),
{
    if s.len() == 0 {
        Seq::empty()
    } else {
        fold_case(s.drop_last()) + lowercase(s.last())
    }
}

/// Lexicographic comparison of two character sequences: `-1`, `0` or `1`.
pub open spec fn lex_order(a: Seq<char>, b: Seq<char>) -> int
    decreases a.len(),
{
    if a.len() == 0 {
        if b.len() == 0 {
            0
        } else {
            -1
        }
    } else if b.len() == 0 {
        1
    } else if a[0] < b[0] {
        -1
    } else if a[0] > b[0] {
        1
    } else {
        lex_order(a.drop_first(), b.drop_first())
    }
}

/// The views of a sequence of character vectors.
pub open spec fn char_views(v: Seq<Vec<char>>) -> Seq<Seq<char>> {
    v.map_values(|x: Vec<char>| x@)
}

/// Calls `char::to_lowercase` and collects what it yields.
/// ASCII upper-case letters become the lower-case ones; the other ASCII
/// characters have no lower-case mapping and stay as they are.
#[verifier::external_body]
fn char_to_lowercase(c: char) -> (r: Vec<char>)
    ensures
        r@ == lowercase(c),
        'A' <= c <= 'Z' ==> r@ == seq![((c as u32) + 32) as char],
        (c as u32) < 128 && !('A' <= c <= 'Z') ==> r@ == seq![c],
{
    c.to_lowercase().collect()
}

/// Builds a `String` from characters, through `String: FromIterator<&char>`:
/// the string holds exactly those characters, in order.
#[verifier::external_body]
pub(crate) fn string_from_chars(v: &Vec<char>) -> (r: String)
    ensures
        r@ == v@,
{
    v.iter().collect()
}

fn is_separator_char(c: char) -> (r: bool)
    ensures
        r == is_separator(c),
{
    c == '/' || c == '\\'
}

/// The characters of a string.
pub fn str_chars(s: &str) -> (r: Vec<char>)
    ensures
        r@ == s@,
{
    let n = s.unicode_len();
    let mut out: Vec<char> = Vec::new();
    let mut i: usize = 0;
    while i < n
        invariant
            n == s@.len(),
            i <= n,
            out@ == s@.subrange(0, i as int),
        decreases n - i,
    {
        out.push(s.get_char(i));
        i = i + 1;
        proof {
            assert(out@ =~= s@.subrange(0, i as int));
        }
    }
    proof {
        assert(out@ =~= s@);
    }
    out
}

proof fn lemma_split_nonempty(s: Seq<char>)
    ensures
        split_path(s).len() >= 1,
    decreases s.len(),
{
    if s.len() > 0 {
        lemma_split_nonempty(s.drop_last());
    }
}

/// Adds one piece to the resolved components.
fn resolve_segment(stack: &mut Vec<Vec<char>>, seg: Vec<char>, absolute: bool)
    ensures
        char_views(final(stack)@) == resolve_step(char_views(old(stack)@), seg@, absolute),
{
    let ghost old_views = char_views(stack@);
    let is_dot = seg.len() == 1 && seg[0] == '.';
    let is_parent = seg.len() == 2 && seg[0] == '.' && seg[1] == '.';
    proof {
        assert(is_dot == (seg@ == seq!['.'])) by {
            if seg@ == seq!['.'] {
                assert(seg@.len() == 1);
                assert(seg@[0] == '.');
            }
            if is_dot {
                assert(seg@ =~= seq!['.']);
            }
        }
        assert(is_parent == (seg@ == parent_component())) by {
            if seg@ == parent_component() {
                assert(seg@.len() == 2);
                assert(seg@[0] == '.' && seg@[1] == '.');
            }
            if is_parent {
                assert(seg@ =~= parent_component());
            }
        }
    }
    if seg.len() == 0 || is_dot {
    } else if is_parent {
        let len = stack.len();
        let top_is_parent = len > 0 && stack[len - 1].len() == 2 && stack[len - 1][0] == '.' && stack[len - 1][1] == '.';
        proof {
            if len > 0 {
                let top = stack@[len - 1]@;
                assert(old_views.last() == top);
                assert(top_is_parent == (top == parent_component())) by {
                    if top == parent_component() {
                        assert(top.len() == 2);
                        assert(top[0] == '.' && top[1] == '.');
                    }
                    if top_is_parent {
                        assert(top =~= parent_component());
                    }
                }
            }
        }
        if len > 0 && !top_is_parent {
            stack.pop();
            proof {
                assert(char_views(stack@) =~= old_views.drop_last());
            }
        } else if absolute {
        } else {
            stack.push(seg);
            proof {
                assert(char_views(stack@) =~= old_views.push(parent_component()));
            }
        }
    } else {
        let ghost sv = seg@;
        stack.push(seg);
        proof {
            assert(char_views(stack@) =~= old_views.push(sv));
        }
    }
}

/// Appends the characters of `b` to `a`.
fn append_chars(a: &mut Vec<char>, b: &Vec<char>)
    ensures
        final(a)@ == old(a)@ + b@,
{
    let mut i: usize = 0;
    let ghost a0 = a@;
    while i < b.len()
        invariant
            i <= b@.len(),
            a@ == a0 + b@.subrange(0, i as int),
        decreases b@.len() - i,
    {
        a.push(b[i]);
        i = i + 1;
        proof {
            assert(a@ =~= a0 + b@.subrange(0, i as int));
        }
    }
    proof {
        assert(b@.subrange(0, b@.len() as int) =~= b@);
    }
}

/// The normal form of a path, as characters.
pub fn normalize_chars(s: &str) -> (r: Vec<char>)
    ensures
        r@ == normalize(s@),
{
    let chars = str_chars(s);
    let n = chars.len();
    let absolute = n > 0 && is_separator_char(chars[0]);
    let mut stack: Vec<Vec<char>> = Vec::new();
    let mut cur: Vec<char> = Vec::new();
    let ghost mut done_segs: Seq<Seq<char>> = Seq::empty();
    let mut i: usize = 0;
    while i < n
        invariant
            chars@ == s@,
            n == s@.len(),
            i <= n,
            absolute == is_absolute(s@),
            split_path(s@.subrange(0, i as int)) == done_segs.push(cur@),
            char_views(stack@) == resolve(done_segs, absolute),
        decreases n - i,
    {
        let c = chars[i];
        let ghost prefix = s@.subrange(0, i as int);
        proof {
            assert(s@.subrange(0, i + 1).drop_last() =~= prefix);
            assert(s@.subrange(0, i + 1).last() == c);
            lemma_split_nonempty(prefix);
        }
        if is_separator_char(c) {
            let seg = cur;
            let ghost seg_v = seg@;
            resolve_segment(&mut stack, seg, absolute);
            cur = Vec::new();
            proof {
                assert(done_segs.push(seg_v).drop_last() =~= done_segs);
                done_segs = done_segs.push(seg_v);
                assert(split_path(s@.subrange(0, i + 1)) =~= done_segs.push(cur@));
            }
        } else {
            let ghost cur0 = cur@;
            cur.push(c);
            proof {
                assert(split_path(s@.subrange(0, i + 1)) =~= done_segs.push(cur@));
            }
        }
        i = i + 1;
    }
    let ghost last = cur@;
    resolve_segment(&mut stack, cur, absolute);
    proof {
        assert(s@.subrange(0, n as int) =~= s@);
        assert(done_segs.push(last).drop_last() =~= done_segs);
        assert(char_views(stack@) == resolve(split_path(s@), absolute));
    }
    let mut out: Vec<char> = Vec::new();
    if absolute {
        out.push('/');
    }
    let ghost pre = out@;
    let ghost segs = char_views(stack@);
    let mut k: usize = 0;
    while k < stack.len()
        invariant
            segs == char_views(stack@),
            k <= stack@.len(),
            out@ == pre + join_path(segs.subrange(0, k as int)),
        decreases stack@.len() - k,
    {
        proof {
            assert(segs.subrange(0, k + 1).drop_last() =~= segs.subrange(0, k as int));
            assert(segs[k as int] == stack@[k as int]@);
        }
        if k > 0 {
            out.push('/');
        }
        append_chars(&mut out, &stack[k]);
        proof {
            if k == 0 {
                assert(segs.subrange(0, 1) =~= seq![segs[0]]);
                assert(out@ =~= pre + join_path(segs.subrange(0, k + 1)));
            } else {
                assert(out@ =~= pre + join_path(segs.subrange(0, k + 1)));
            }
        }
        k = k + 1;
    }
    proof {
        assert(segs.subrange(0, segs.len() as int) =~= segs);
        if absolute {
            assert(pre =~= seq!['/']);
        } else {
            assert(pre =~= Seq::<char>::empty());
            assert(out@ =~= join_path(segs));
        }
    }
    out
}

/// Every character is ASCII.
pub open spec fn all_ascii(s: Seq<char>) -> bool {
    forall|i: int| 0 <= i < s.len() ==> (s[i] as u32) < 128
}

/// An ASCII character in lower case: `A` to `Z` become `a` to `z`.
pub open spec fn ascii_lower(c: char) -> char {
    if 'A' <= c <= 'Z' {
        ((c as u32) + 32) as char
    } else {
        c
    }
}

/// Each character of `s` replaced by its lowercase form; for ASCII text
/// that is only `A` to `Z` turned into `a` to `z`.
pub fn fold_case_chars(s: &Vec<char>) -> (r: Vec<char>)
    ensures
        r@ == fold_case(s@),
        all_ascii(s@) ==> r@ == s@.map_values(|c: char| ascii_lower(c)),
{
    let mut out: Vec<char> = Vec::new();
    let mut i: usize = 0;
    while i < s.len()
        invariant
            i <= s@.len(),
            out@ == fold_case(s@.subrange(0, i as int)),
            all_ascii(s@) ==> out@ == s@.subrange(0, i as int).map_values(|c: char| ascii_lower(c)),
        decreases s@.len() - i,
    {
        let lower = char_to_lowercase(s[i]);
        let ghost before = out@;
        append_chars(&mut out, &lower);
        proof {
            assert(s@.subrange(0, i + 1).drop_last() =~= s@.subrange(0, i as int));
            if all_ascii(s@) {
                assert((s@[i as int] as u32) < 128);
                assert(lower@ == seq![ascii_lower(s@[i as int])]);
                assert(out@ =~= s@.subrange(0, i + 1).map_values(|c: char| ascii_lower(c)));
            }
        }
        i = i + 1;
    }
    proof {
        assert(s@.subrange(0, s@.len() as int) =~= s@);
    }
    out
}

proof fn lemma_lex_order_skip(a: Seq<char>, b: Seq<char>, i: int)
    requires
        0 <= i <= a.len(),
        i <= b.len(),
        forall|j: int| 0 <= j < i ==> a[j] == b[j],
    ensures
        lex_order(a, b) == lex_order(a.subrange(i, a.len() as int), b.subrange(i, b.len() as int)),
    decreases i,
{
    if i > 0 {
        lemma_lex_order_skip(a.drop_first(), b.drop_first(), i - 1);
        assert(a.drop_first().subrange(i - 1, a.len() - 1) =~= a.subrange(i, a.len() as int));
        assert(b.drop_first().subrange(i - 1, b.len() - 1) =~= b.subrange(i, b.len() as int));
    } else {
        assert(a.subrange(0, a.len() as int) =~= a);
        assert(b.subrange(0, b.len() as int) =~= b);
    }
}

/// Lexicographic comparison of two character vectors: `-1`, `0` or `1`.
pub fn compare_chars(a: &Vec<char>, b: &Vec<char>) -> (r: i8)
    ensures
        r == lex_order(a@, b@),
{
    let mut i: usize = 0;
    while i < a.len() && i < b.len()
        invariant
            i <= a@.len(),
            i <= b@.len(),
            forall|j: int| 0 <= j < i ==> a@[j] == b@[j],
        decreases a@.len() - i,
    {
        if a[i] != b[i] {
            proof {
                lemma_lex_order_skip(a@, b@, i as int);
            }
            if a[i] < b[i] {
                return -1;
            } else {
                return 1;
            }
        }
        i = i + 1;
    }
    proof {
        lemma_lex_order_skip(a@, b@, i as int);
    }
    if i < a.len() {
        1
    } else if i < b.len() {
        -1
    } else {
        0
    }
}

/// Equality of two character vectors.
pub(crate) fn chars_equal(a: &Vec<char>, b: &Vec<char>) -> (r: bool)
    ensures
        r == (a@ == b@),
{
    if a.len() != b.len() {
        return false;
    }
    let mut i: usize = 0;
    while i < a.len()
        invariant
            a@.len() == b@.len(),
            i <= a@.len(),
            forall|j: int| 0 <= j < i ==> a@[j] == b@[j],
        decreases a@.len() - i,
    {
        if a[i] != b[i] {
            return false;
        }
        i = i + 1;
    }
    proof {
        assert(a@ =~= b@);
    }
    true
}

/// Equality of two strings, character by character.
pub fn str_eq(a: &str, b: &str) -> (r: bool)
    ensures
        r == (a@ == b@),
{
    chars_equal(&str_chars(a), &str_chars(b))
}

/// A path to a file or a directory, kept in normal form. Two paths are
/// equal, and are ordered, by their characters in lowercase.
#[derive(Debug)]
pub struct FilePath {
    path: String,
}

impl Clone for FilePath {
    fn clone(&self) -> (r: FilePath)
        ensures
            r == *self,
    {
        proof {
            use_type_invariant(self);
        }
        FilePath { path: self.path.clone() }
    }
}

impl View for FilePath {
    type V = Seq<char>;

    /// The lowercase form of the path, by which paths compare.
    open spec fn view(&self) -> Seq<char> {
        fold_case(self.spec_path())
    }
}

impl FilePath {
    /// The path as stored, in normal form.
    pub closed spec fn spec_path(&self) -> Seq<char> {
        self.path@
    }

    /// The stored path is its own normal form.
    #[verifier::type_invariant]
    spec fn normal(self) -> bool {
        normalize(self.path@) == self.path@
    }

    /// A path in normal form.
    pub fn new(path: &str) -> (r: FilePath)
        ensures
            r.spec_path() == normalize(path@),
    {
        let chars = normalize_chars(path);
        proof {
            lemma_normalize_idempotent(path@);
        }
        FilePath { path: string_from_chars(&chars) }
    }

    /// The path as stored, which is in normal form: a path made from this
    /// text is the same path.
    pub fn as_str(&self) -> (r: &str)
        ensures
            r@ == self.spec_path(),
            normalize(r@) == r@,
    {
        proof {
            use_type_invariant(self);
        }
        self.path.as_str()
    }

    /// The lowercase form of the path.
    fn folded(&self) -> (r: Vec<char>)
        ensures
            r@ == self@,
    {
        let chars = str_chars(self.path.as_str());
        fold_case_chars(&chars)
    }

    /// Compares two paths by their lowercase forms: `-1`, `0` or `1`.
    pub fn compare(&self, other: &FilePath) -> (r: i8)
        ensures
            r == lex_order(self@, other@),
    {
        compare_chars(&self.folded(), &other.folded())
    }
}

impl PartialEq for FilePath {
    fn eq(&self, other: &FilePath) -> (r: bool) {
        chars_equal(&self.folded(), &other.folded())
    }
}

impl vstd::std_specs::cmp::PartialEqSpecImpl for FilePath {
    open spec fn obeys_eq_spec() -> bool {
        true
    }

    open spec fn eq_spec(&self, other: &FilePath) -> bool {
        self@ == other@
    }
}

impl Eq for FilePath {
}

impl PartialOrd for FilePath {
    fn partial_cmp(&self, other: &FilePath) -> (r: Option<Ordering>) {
        let c = self.compare(other);
        if c < 0 {
            Some(Ordering::Less)
        } else if c == 0 {
            Some(Ordering::Equal)
        } else {
            Some(Ordering::Greater)
        }
    }
}

impl vstd::std_specs::cmp::PartialOrdSpecImpl for FilePath {
    open spec fn obeys_partial_cmp_spec() -> bool {
        true
    }

    open spec fn partial_cmp_spec(&self, other: &FilePath) -> Option<Ordering> {
        if lex_order(self@, other@) < 0 {
            Some(Ordering::Less)
        } else if lex_order(self@, other@) == 0 {
            Some(Ordering::Equal)
        } else {
            Some(Ordering::Greater)
        }
    }
}

/// A file (or directory) resource, named by a path in normal form. Files
/// compare as their paths do.
#[derive(Clone, Debug)]
pub struct File {
    path: FilePath,
}

impl View for File {
    type V = Seq<char>;

    open spec fn view(&self) -> Seq<char> {
        self.spec_file_path()@
    }
}

impl File {
    /// The path of the file.
    pub closed spec fn spec_file_path(&self) -> FilePath {
        self.path
    }

    /// A file resource at the normal form of `path`.
    pub fn new(path: &str) -> (r: File)
        ensures
            r.spec_file_path().spec_path() == normalize(path@),
    {
        File { path: FilePath::new(path) }
    }

    /// The path of the file.
    pub fn path(&self) -> (r: &FilePath)
        ensures
            *r == self.spec_file_path(),
    {
        &self.path
    }

    /// Compares two files by their paths: `-1`, `0` or `1`.
    pub fn compare(&self, other: &File) -> (r: i8)
        ensures
            r == lex_order(self@, other@),
    {
        self.path.compare(&other.path)
    }
}

impl PartialEq for File {
    fn eq(&self, other: &File) -> (r: bool) {
        self.path.compare(&other.path) == 0
    }
}

impl vstd::std_specs::cmp::PartialEqSpecImpl for File {
    open spec fn obeys_eq_spec() -> bool {
        true
    }

    open spec fn eq_spec(&self, other: &File) -> bool {
        lex_order(self@, other@) == 0
    }
}

impl Eq for File {
}

impl PartialOrd for File {
    fn partial_cmp(&self, other: &File) -> (r: Option<Ordering>) {
        let c = self.compare(other);
        if c < 0 {
            Some(Ordering::Less)
        } else if c == 0 {
            Some(Ordering::Equal)
        } else {
            Some(Ordering::Greater)
        }
    }
}

impl vstd::std_specs::cmp::PartialOrdSpecImpl for File {
    open spec fn obeys_partial_cmp_spec() -> bool {
        true
    }

    open spec fn partial_cmp_spec(&self, other: &File) -> Option<Ordering> {
        if lex_order(self@, other@) < 0 {
            Some(Ordering::Less)
        } else if lex_order(self@, other@) == 0 {
            Some(Ordering::Equal)
        } else {
            Some(Ordering::Greater)
        }
    }
}

/// Two sequences compare as equal exactly when they are the same.
pub proof fn lemma_lex_order_zero(a: Seq<char>, b: Seq<char>)
    ensures
        (lex_order(a, b) == 0) == (a == b),
    decreases a.len(),
{
    if a.len() > 0 && b.len() > 0 && a[0] == b[0] {
        lemma_lex_order_zero(a.drop_first(), b.drop_first());
        if a.drop_first() == b.drop_first() {
            assert(a =~= seq![a[0]] + a.drop_first());
            assert(b =~= seq![b[0]] + b.drop_first());
        }
    } else if a.len() == 0 && b.len() == 0 {
        assert(a =~= b);
    } else if a.len() > 0 && b.len() > 0 {
        assert(a[0] != b[0]);
    } else {
        assert(a.len() != b.len());
    }
}

/// Adds a piece of a path to its components: empty pieces vanish, and so
/// does `.` unless it starts the path.
pub open spec fn push_piece(acc: Seq<Seq<char>>, cur: Seq<char>) -> Seq<Seq<char>> {
    if cur.len() == 0 || (cur == seq!['.'] && acc.len() > 0) {
        acc
    } else {
        acc.push(cur)
    }
}

/// Scans `rest` for components: `cur` is the piece being read, `acc` the
/// components so far.
pub open spec fn scan_components(rest: Seq<char>, cur: Seq<char>, acc: Seq<Seq<char>>) -> Seq<Seq<char>>
    decreases rest.len(),
{
    if rest.len() == 0 {
        push_piece(acc, cur)
    } else if rest[0] == '/' {
        scan_components(rest.drop_first(), Seq::empty(), push_piece(acc, cur))
    } else {
        scan_components(rest.drop_first(), cur.push(rest[0]), acc)
    }
}

/// The components of a path, as `Path::components` gives them: the root
/// `/` first for an absolute path, then the pieces between `/`, without
/// empty pieces and without `.` except at the start of a relative path.
pub open spec fn path_components(s: Seq<char>) -> Seq<Seq<char>> {
    if s.len() > 0 && s[0] == '/' {
        scan_components(s.drop_first(), Seq::empty(), seq![seq!['/']])
    } else {
        scan_components(s, Seq::empty(), Seq::empty())
    }
}

/// The rank of a component in the order of components: the root, then `.`,
/// then `..`, then the names.
pub open spec fn component_rank(c: Seq<char>) -> int {
    if c == seq!['/'] {
        1
    } else if c == seq!['.'] {
        2
    } else if c == seq!['.', '.'] {
        3
    } else {
        4
    }
}

/// The order of two components: `-1`, `0` or `1`.
pub open spec fn component_order(a: Seq<char>, b: Seq<char>) -> int {
    if component_rank(a) < component_rank(b) {
        -1
    } else if component_rank(a) > component_rank(b) {
        1
    } else if component_rank(a) < 4 {
        0
    } else {
        lex_order(a, b)
    }
}

/// Lexicographic order of two lists of components: `-1`, `0` or `1`.
pub open spec fn components_order(a: Seq<Seq<char>>, b: Seq<Seq<char>>) -> int
    decreases a.len(),
{
    if a.len() == 0 {
        if b.len() == 0 { 0 } else { -1 }
    } else if b.len() == 0 {
        1
    } else if component_order(a[0], b[0]) != 0 {
        component_order(a[0], b[0])
    } else {
        components_order(a.drop_first(), b.drop_first())
    }
}

fn piece_pushed(acc: &mut Vec<Vec<char>>, cur: Vec<char>)
    ensures
        char_views(final(acc)@) == push_piece(char_views(old(acc)@), cur@),
{
    let dot: [char; 1] = ['.'];
    proof {
        assert(dot@ =~= seq!['.']);
    }
    let is_dot = cur.len() == 1 && cur[0] == '.';
    proof {
        if is_dot {
            assert(cur@ =~= seq!['.']);
        }
        if cur@ == seq!['.'] {
            assert(cur@.len() == 1 && cur@[0] == '.');
        }
    }
    if cur.len() == 0 || (is_dot && acc.len() > 0) {
    } else {
        let ghost before = acc@;
        acc.push(cur);
        proof {
            assert(char_views(acc@) =~= char_views(before).push(cur@));
        }
    }
}

/// The components of a path, as characters.
pub(crate) fn components_of(s: &Vec<char>) -> (r: Vec<Vec<char>>)
    ensures
        char_views(r@) == path_components(s@),
{
    let mut acc: Vec<Vec<char>> = Vec::new();
    let mut i: usize = 0;
    if s.len() > 0 && s[0] == '/' {
        let root = vec!['/'];
        proof {
            assert(root@ =~= seq!['/']);
        }
        acc.push(root);
        i = 1;
        proof {
            assert(char_views(acc@) =~= seq![seq!['/']]);
            assert(s@.subrange(1, s@.len() as int) =~= s@.drop_first());
        }
    } else {
        proof {
            assert(char_views(acc@) =~= Seq::<Seq<char>>::empty());
            assert(s@.subrange(0, s@.len() as int) =~= s@);
        }
    }
    let mut cur: Vec<char> = Vec::new();
    proof {
        assert(cur@ =~= Seq::<char>::empty());
    }
    while i < s.len()
        invariant
            i <= s@.len(),
            path_components(s@) == scan_components(s@.subrange(i as int, s@.len() as int), cur@, char_views(acc@)),
        decreases s@.len() - i,
    {
        proof {
            assert(s@.subrange(i + 1, s@.len() as int) =~= s@.subrange(i as int, s@.len() as int).drop_first());
        }
        let c = s[i];
        if c == '/' {
            let piece = cur;
            piece_pushed(&mut acc, piece);
            cur = Vec::new();
            proof {
                assert(cur@ =~= Seq::<char>::empty());
            }
        } else {
            cur.push(c);
        }
        i = i + 1;
    }
    piece_pushed(&mut acc, cur);
    acc
}

/// Compares two lists of components: `-1`, `0` or `1`.
fn compare_components(a: &Vec<Vec<char>>, b: &Vec<Vec<char>>) -> (r: i8)
    ensures
        r == components_order(char_views(a@), char_views(b@)),
{
    let mut i: usize = 0;
    proof {
        assert(char_views(a@).subrange(0, a@.len() as int) =~= char_views(a@));
        assert(char_views(b@).subrange(0, b@.len() as int) =~= char_views(b@));
    }
    while i < a.len() && i < b.len()
        invariant
            i <= a@.len(),
            i <= b@.len(),
            components_order(char_views(a@), char_views(b@))
                == components_order(char_views(a@).subrange(i as int, a@.len() as int), char_views(b@).subrange(i as int, b@.len() as int)),
        decreases a@.len() - i,
    {
        let ra = component_rank_of(&a[i]);
        let rb = component_rank_of(&b[i]);
        let ghost xa = char_views(a@).subrange(i as int, a@.len() as int);
        let ghost xb = char_views(b@).subrange(i as int, b@.len() as int);
        proof {
            assert(xa[0] == a@[i as int]@);
            assert(xb[0] == b@[i as int]@);
            assert(char_views(a@).subrange(i + 1, a@.len() as int) =~= xa.drop_first());
            assert(char_views(b@).subrange(i + 1, b@.len() as int) =~= xb.drop_first());
        }
        if ra < rb {
            return -1;
        }
        if ra > rb {
            return 1;
        }
        if ra == 4 {
            let c = compare_chars(&a[i], &b[i]);
            if c != 0 {
                return c;
            }
        }
        i = i + 1;
    }
    proof {
        let xa = char_views(a@).subrange(i as int, a@.len() as int);
        let xb = char_views(b@).subrange(i as int, b@.len() as int);
        assert(xa.len() == a@.len() - i);
        assert(xb.len() == b@.len() - i);
    }
    if i < a.len() {
        1
    } else if i < b.len() {
        -1
    } else {
        0
    }
}

/// The rank of a component, as `component_rank` gives it.
fn component_rank_of(c: &Vec<char>) -> (r: u8)
    ensures
        r == component_rank(c@),
{
    proof {
        if c@ == seq!['/'] || c@ == seq!['.'] {
            assert(c@.len() == 1);
        }
        if c@ == seq!['.', '.'] {
            assert(c@.len() == 2);
        }
    }
    if c.len() == 1 && c[0] == '/' {
        proof {
            assert(c@ =~= seq!['/']);
        }
        1
    } else if c.len() == 1 && c[0] == '.' {
        proof {
            assert(c@ =~= seq!['.']);
        }
        2
    } else if c.len() == 2 && c[0] == '.' && c[1] == '.' {
        proof {
            assert(c@ =~= seq!['.', '.']);
        }
        3
    } else {
        proof {
            if c@ == seq!['/'] {
                assert(c@[0] == '/');
            }
            if c@ == seq!['.'] {
                assert(c@[0] == '.');
            }
            if c@ == seq!['.', '.'] {
                assert(c@[0] == '.' && c@[1] == '.');
            }
        }
        4
    }
}

proof fn lemma_components_order_zero(a: Seq<Seq<char>>, b: Seq<Seq<char>>)
    ensures
        (components_order(a, b) == 0) == (a == b),
    decreases a.len(),
{
    if a.len() > 0 && b.len() > 0 {
        lemma_lex_order_zero(a[0], b[0]);
        if component_order(a[0], b[0]) == 0 {
            lemma_components_order_zero(a.drop_first(), b.drop_first());
            if a.drop_first() == b.drop_first() {
                assert(a =~= seq![a[0]] + a.drop_first());
                assert(b =~= seq![b[0]] + b.drop_first());
            }
        } else {
            assert(a[0] != b[0]);
        }
        if a == b {
            assert(a.drop_first() == b.drop_first());
        }
    } else if a.len() == 0 && b.len() == 0 {
        assert(a =~= b);
    }
}

/// A directory resource, named by the path as given. Directories compare
/// by the components of their paths, as `Path` does.
#[derive(Clone, Debug)]
pub struct Dir {
    path: String,
}

impl Dir {
    /// The path of the directory.
    pub closed spec fn spec_path(&self) -> Seq<char> {
        self.path@
    }

    /// A directory resource at `path`, kept as given.
    pub fn new(path: &str) -> (r: Dir)
        ensures
            r.spec_path() == path@,
    {
        Dir { path: path.to_owned() }
    }

    /// The path of the directory.
    pub fn as_str(&self) -> (r: &str)
        ensures
            r@ == self.spec_path(),
    {
        self.path.as_str()
    }

    /// Compares two directories by the components of their paths: `-1`,
    /// `0` or `1`.
    pub fn compare(&self, other: &Dir) -> (r: i8)
        ensures
            r == components_order(path_components(self.spec_path()), path_components(other.spec_path())),
    {
        let a = components_of(&str_chars(self.path.as_str()));
        let b = components_of(&str_chars(other.path.as_str()));
        compare_components(&a, &b)
    }
}

impl PartialEq for Dir {
    fn eq(&self, other: &Dir) -> (r: bool) {
        let c = self.compare(other);
        proof {
            lemma_components_order_zero(path_components(self.spec_path()), path_components(other.spec_path()));
        }
        c == 0
    }
}

impl vstd::std_specs::cmp::PartialEqSpecImpl for Dir {
    open spec fn obeys_eq_spec() -> bool {
        true
    }

    open spec fn eq_spec(&self, other: &Dir) -> bool {
        path_components(self.spec_path()) == path_components(other.spec_path())
    }
}

impl Eq for Dir {
}

impl PartialOrd for Dir {
    fn partial_cmp(&self, other: &Dir) -> (r: Option<Ordering>) {
        let c = self.compare(other);
        if c < 0 {
            Some(Ordering::Less)
        } else if c == 0 {
            Some(Ordering::Equal)
        } else {
            Some(Ordering::Greater)
        }
    }
}

impl vstd::std_specs::cmp::PartialOrdSpecImpl for Dir {
    open spec fn obeys_partial_cmp_spec() -> bool {
        true
    }

    open spec fn partial_cmp_spec(&self, other: &Dir) -> Option<Ordering> {
        let c = components_order(path_components(self.spec_path()), path_components(other.spec_path()));
        if c < 0 {
            Some(Ordering::Less)
        } else if c == 0 {
            Some(Ordering::Equal)
        } else {
            Some(Ordering::Greater)
        }
    }
}

/// The resource types.
#[derive(Clone, Debug)]
pub enum Res {
    FilePath(FilePath),
}

impl View for Res {
    type V = Seq<char>;

    open spec fn view(&self) -> Seq<char> {
        match self {
            Res::FilePath(p) => p@,
        }
    }
}

impl PartialEq for Res {
    fn eq(&self, other: &Res) -> (r: bool) {
        match (self, other) {
            (Res::FilePath(a), Res::FilePath(b)) => a == b,
        }
    }
}

impl vstd::std_specs::cmp::PartialEqSpecImpl for Res {
    open spec fn obeys_eq_spec() -> bool {
        true
    }

    open spec fn eq_spec(&self, other: &Res) -> bool {
        self@ == other@
    }
}

impl Eq for Res {
}

proof fn lemma_lex_order_range(a: Seq<char>, b: Seq<char>)
    ensures
        -1 <= lex_order(a, b) <= 1,
    decreases a.len(),
{
    if a.len() > 0 && b.len() > 0 && a[0] == b[0] {
        lemma_lex_order_range(a.drop_first(), b.drop_first());
    }
}

proof fn lemma_lex_order_antisym(a: Seq<char>, b: Seq<char>)
    ensures
        lex_order(a, b) == -lex_order(b, a),
    decreases a.len(),
{
    if a.len() > 0 && b.len() > 0 && a[0] == b[0] {
        lemma_lex_order_antisym(a.drop_first(), b.drop_first());
    }
}

proof fn lemma_lex_order_trans(a: Seq<char>, b: Seq<char>, c: Seq<char>)
    requires
        lex_order(a, b) < 0,
        lex_order(b, c) < 0,
    ensures
        lex_order(a, c) < 0,
    decreases a.len(),
{
    if a.len() > 0 && b.len() > 0 && c.len() > 0 && a[0] == b[0] && b[0] == c[0] {
        lemma_lex_order_trans(a.drop_first(), b.drop_first(), c.drop_first());
    }
}

/// Paths are totally ordered: by their lowercase forms, character by
/// character.
pub proof fn lemma_file_path_total_order()
    ensures
        total_order::<FilePath>(),
{
    reveal(obeys_partial_cmp_spec_properties);
    reveal(obeys_eq_spec_properties);
    assert forall|x: FilePath, y: FilePath| #[trigger] x.partial_cmp_spec(&y) == Some(Ordering::Equal) <==> x.eq_spec(&y) by {
        lemma_lex_order_zero(x@, y@);
    }
    assert forall|x: FilePath, y: FilePath| #[trigger] x.partial_cmp_spec(&y) == Some(Ordering::Less) <==> y.partial_cmp_spec(&x) == Some(Ordering::Greater) by {
        lemma_lex_order_antisym(x@, y@);
    }
    assert forall|x: FilePath, y: FilePath, z: FilePath|
        x.partial_cmp_spec(&y) == Some(Ordering::Less) && #[trigger] y.partial_cmp_spec(&z) == Some(Ordering::Less)
        implies #[trigger] x.partial_cmp_spec(&z) == Some(Ordering::Less) by {
        lemma_lex_order_trans(x@, y@, z@);
    }
    assert forall|x: FilePath, y: FilePath, z: FilePath|
        x.partial_cmp_spec(&y) == Some(Ordering::Greater) && #[trigger] y.partial_cmp_spec(&z) == Some(Ordering::Greater)
        implies #[trigger] x.partial_cmp_spec(&z) == Some(Ordering::Greater) by {
        lemma_lex_order_range(x@, y@);
        lemma_lex_order_range(y@, z@);
        lemma_lex_order_range(x@, z@);
        lemma_lex_order_antisym(x@, y@);
        lemma_lex_order_antisym(y@, z@);
        lemma_lex_order_antisym(x@, z@);
        lemma_lex_order_trans(z@, y@, x@);
    }
}

/// Paths are equal exactly when their views, the lowercase forms, are.
pub proof fn lemma_file_path_obeys_view_eq()
    ensures
        obeys_view_eq::<FilePath>(),
{
    reveal(obeys_view_eq);
}

} // verus!
