use vstd::prelude::*;
use vstd::laws_eq::obeys_view_eq;

use crate::res::{char_views, chars_equal, components_of, fold_case, join_path, lemma_file_path_obeys_view_eq, normalize, path_components, str_chars, string_from_chars, FilePath};

verus! {

/// The set of views of the items.
pub open spec fn view_set<R: View>(items: Seq<R>) -> Set<R::V> {
    Set::new(|v: R::V| exists|i: int| 0 <= i < items.len() && (#[trigger] items[i])@ == v)
}

/// No two items have the same view.
pub open spec fn distinct_views<R: View>(items: Seq<R>) -> bool {
    forall|i: int, j: int| 0 <= i < j < items.len() ==> (#[trigger] items[i])@ != (#[trigger] items[j])@
}

/// The inputs and outputs of a process, each a set of resources.
pub struct Detected<R> {
    pub inputs: Vec<R>,
    pub outputs: Vec<R>,
}

impl<R: View> Detected<R> {
    /// Each resource is listed once.
    pub open spec fn wf(&self) -> bool {
        distinct_views(self.inputs@) && distinct_views(self.outputs@)
    }
}

/// Adds `r` to the set `items`, unless an equal resource is already there.
fn insert_unique<R: PartialEq + View>(items: &mut Vec<R>, r: R)
    requires
        obeys_view_eq::<R>(),
        distinct_views(old(items)@),
    ensures
        distinct_views(final(items)@),
        view_set(final(items)@) == view_set(old(items)@).insert(r@),
{
    proof {
        reveal(obeys_view_eq);
    }
    let mut i: usize = 0;
    let ghost rv = r@;
    while i < items.len()
        invariant
            obeys_view_eq::<R>(),
            i <= items@.len(),
            forall|j: int| 0 <= j < i ==> (#[trigger] items@[j])@ != rv,
            r@ == rv,
            distinct_views(items@),
            items@ == old(items)@,
        decreases items@.len() - i,
    {
        proof {
            reveal(obeys_view_eq);
        }
        if items[i] == r {
            proof {
                assert(view_set(items@).contains(rv));
                assert(view_set(items@).insert(rv) =~= view_set(items@));
            }
            return;
        }
        i = i + 1;
    }
    let ghost before = items@;
    items.push(r);
    proof {
        assert(view_set(items@) =~= view_set(before).insert(rv)) by {
            assert forall|v: R::V| view_set(items@).contains(v) implies view_set(before).insert(rv).contains(v) by {
                let k = choose|k: int| 0 <= k < items@.len() && (#[trigger] items@[k])@ == v;
                if k < before.len() {
                    assert(before[k] == items@[k]);
                }
            }
            assert forall|v: R::V| view_set(before).insert(rv).contains(v) implies view_set(items@).contains(v) by {
                if v == rv {
                    assert(items@[before.len() as int]@ == v);
                } else {
                    let k = choose|k: int| 0 <= k < before.len() && (#[trigger] before[k])@ == v;
                    assert(items@[k] == before[k]);
                }
            }
        }
        assert forall|a: int, b: int| 0 <= a < b < items@.len() implies (#[trigger] items@[a])@ != (#[trigger] items@[b])@ by {
            assert(items@[a] == before[a]);
            if b < before.len() {
                assert(items@[b] == before[b]);
            }
        }
    }
}

/// Adds every resource of `others` to the set `items`.
fn insert_all<R: PartialEq + View>(items: &mut Vec<R>, others: Vec<R>)
    requires
        obeys_view_eq::<R>(),
        distinct_views(old(items)@),
    ensures
        distinct_views(final(items)@),
        view_set(final(items)@) == view_set(old(items)@).union(view_set(others@)),
{
    let ghost all = others@;
    let ghost start = view_set(items@);
    let mut others = others;
    let n = others.len();
    let mut k: usize = 0;
    while k < n
        invariant
            obeys_view_eq::<R>(),
            n == all.len(),
            k <= n,
            others@ == all.subrange(k as int, n as int),
            distinct_views(items@),
            view_set(items@) == start.union(view_set(all.subrange(0, k as int))),
        decreases n - k,
    {
        let r = others.remove(0);
        proof {
            assert(others@ =~= all.subrange(k + 1, n as int));
            assert(r == all[k as int]);
        }
        insert_unique(items, r);
        proof {
            let pre = all.subrange(0, k as int);
            let post = all.subrange(0, k + 1);
            assert(view_set(post) =~= view_set(pre).insert(all[k as int]@)) by {
                assert forall|v: R::V| view_set(post).contains(v) implies view_set(pre).insert(all[k as int]@).contains(v) by {
                    let j = choose|j: int| 0 <= j < post.len() && (#[trigger] post[j])@ == v;
                    if j < k {
                        assert(pre[j] == post[j]);
                    }
                }
                assert forall|v: R::V| view_set(pre).insert(all[k as int]@).contains(v) implies view_set(post).contains(v) by {
                    if v == all[k as int]@ {
                        assert(post[k as int]@ == v);
                    } else {
                        let j = choose|j: int| 0 <= j < pre.len() && (#[trigger] pre[j])@ == v;
                        assert(post[j] == pre[j]);
                    }
                }
            }
            assert(view_set(items@) =~= start.union(view_set(post)));
        }
        k = k + 1;
    }
    proof {
        assert(all.subrange(0, n as int) =~= all);
    }
}

impl<R: PartialEq + View> Detected<R> {
    /// No inputs and no outputs.
    pub fn new() -> (r: Detected<R>)
        ensures
            r.wf(),
            view_set(r.inputs@) == Set::<R::V>::empty(),
            view_set(r.outputs@) == Set::<R::V>::empty(),
    {
        let r = Detected { inputs: Vec::new(), outputs: Vec::new() };
        proof {
            assert(view_set(r.inputs@) =~= Set::<R::V>::empty());
            assert(view_set(r.outputs@) =~= Set::<R::V>::empty());
        }
        r
    }

    /// Adds an input.
    pub fn add_input(&mut self, r: R)
        requires
            old(self).wf(),
            obeys_view_eq::<R>(),
        ensures
            final(self).wf(),
            view_set(final(self).inputs@) == view_set(old(self).inputs@).insert(r@),
            final(self).outputs == old(self).outputs,
    {
        insert_unique(&mut self.inputs, r);
    }

    /// Adds an output.
    pub fn add_output(&mut self, r: R)
        requires
            old(self).wf(),
            obeys_view_eq::<R>(),
        ensures
            final(self).wf(),
            view_set(final(self).outputs@) == view_set(old(self).outputs@).insert(r@),
            final(self).inputs == old(self).inputs,
    {
        insert_unique(&mut self.outputs, r);
    }

    /// Adds the inputs and outputs of `other`.
    pub fn add(&mut self, other: Detected<R>)
        requires
            old(self).wf(),
            obeys_view_eq::<R>(),
        ensures
            final(self).wf(),
            view_set(final(self).inputs@) == view_set(old(self).inputs@).union(view_set(other.inputs@)),
            view_set(final(self).outputs@) == view_set(old(self).outputs@).union(view_set(other.outputs@)),
    {
        let Detected { inputs, outputs } = other;
        insert_all(&mut self.inputs, inputs);
        insert_all(&mut self.outputs, outputs);
    }
}

/// How to detect the inputs and outputs of a process.
#[derive(Copy, Clone, Debug, PartialEq, Eq, Structural, Hash)]
pub enum Detect {
    /// MSVC's `cl.exe`, whose `/showIncludes` output lists what it reads.
    Cl,
    /// Clang or GCC, whose `-MMD -MF` makefile lists what they read.
    Clang,
    /// No detection: the rules list every input and output.
    Disabled,
}

impl Default for Detect {
    fn default() -> (r: Detect)
        ensures
            r == Detect::Disabled,
    {
        Detect::Disabled
    }
}

/// The last component of a path, as `Path::file_name` finds it: empty and
/// `.` components are skipped, and there is none when the path ends in
/// `..` or has no component.
pub open spec fn file_name(path: Seq<char>) -> Option<Seq<char>>
    decreases path.len(),
{
    last_component(path, Seq::empty(), None)
}

/// Scans `rest`: `cur` is the component being read, `last` the last
/// complete one that counts.
pub open spec fn last_component(rest: Seq<char>, cur: Seq<char>, last: Option<Seq<char>>) -> Option<Seq<char>>
    decreases rest.len(),
{
    if rest.len() == 0 {
        let l = if cur.len() == 0 || cur == seq!['.'] { last } else { Some(cur) };
        match l {
            Some(c) => if c == seq!['.', '.'] { None } else { Some(c) },
            None => None,
        }
    } else if rest[0] == '/' {
        let l = if cur.len() == 0 || cur == seq!['.'] { last } else { Some(cur) };
        last_component(rest.drop_first(), Seq::empty(), l)
    } else {
        last_component(rest.drop_first(), cur.push(rest[0]), last)
    }
}

/// The detection method that a program's file name calls for.
pub open spec fn detect_for(name: Option<Seq<char>>) -> Detect {
    match name {
        Some(n) => if n == seq!['c', 'l'] {
            Detect::Cl
        } else if n == seq!['g', 'c', 'c'] || n == seq!['c', 'l', 'a', 'n', 'g'] {
            Detect::Clang
        } else {
            Detect::Disabled
        },
        None => Detect::Disabled,
    }
}

fn chars_are(a: &Vec<char>, lit: &[char]) -> (r: bool)
    ensures
        r == (a@ == lit@),
{
    if a.len() != lit.len() {
        return false;
    }
    let mut i: usize = 0;
    while i < a.len()
        invariant
            a@.len() == lit@.len(),
            i <= a@.len(),
            forall|j: int| 0 <= j < i ==> a@[j] == lit@[j],
        decreases a@.len() - i,
    {
        if a[i] != lit[i] {
            return false;
        }
        i = i + 1;
    }
    proof {
        assert(a@ =~= lit@);
    }
    true
}

/// The file name of a path, as characters.
fn file_name_chars(path: &Vec<char>) -> (r: Option<Vec<char>>)
    ensures
        match r {
            Some(v) => file_name(path@) == Some(v@),
            None => file_name(path@) is None,
        },
{
    let mut cur: Vec<char> = Vec::new();
    let mut last: Option<Vec<char>> = None;
    let mut i: usize = 0;
    proof {
        assert(path@.subrange(0, path@.len() as int) =~= path@);
    }
    let dot: [char; 1] = ['.'];
    proof {
        assert(dot@ =~= seq!['.']);
    }
    while i < path.len()
        invariant
            i <= path@.len(),
            dot@ == seq!['.'],
            last_component(path@, Seq::empty(), None) == last_component(
                path@.subrange(i as int, path@.len() as int),
                cur@,
                match last {
                    Some(v) => Some(v@),
                    None => None,
                },
            ),
        decreases path@.len() - i,
    {
        let c = path[i];
        proof {
            assert(path@.subrange(i + 1, path@.len() as int) =~= path@.subrange(i as int, path@.len() as int).drop_first());
        }
        if c == '/' {
            let counts = !(cur.len() == 0 || chars_are(&cur, &dot));
            if counts {
                last = Some(cur);
            }
            cur = Vec::new();
        } else {
            cur.push(c);
        }
        i = i + 1;
    }
    let counts = !(cur.len() == 0 || chars_are(&cur, &dot));
    if counts {
        last = Some(cur);
    }
    let dotdot: [char; 2] = ['.', '.'];
    proof {
        assert(dotdot@ =~= seq!['.', '.']);
    }
    match last {
        Some(c) => {
            if chars_are(&c, &dotdot) {
                None
            } else {
                Some(c)
            }
        },
        None => None,
    }
}

impl Detect {
    /// The best detection method for a program, by its file name: `cl` for
    /// MSVC, `gcc` and `clang` for Clang, no detection otherwise.
    pub fn from_program(program: &str) -> (r: Detect)
        ensures
            r == detect_for(file_name(program@)),
    {
        let chars = str_chars(program);
        let cl: [char; 2] = ['c', 'l'];
        let gcc: [char; 3] = ['g', 'c', 'c'];
        let clang: [char; 5] = ['c', 'l', 'a', 'n', 'g'];
        proof {
            assert(cl@ =~= seq!['c', 'l']);
            assert(gcc@ =~= seq!['g', 'c', 'c']);
            assert(clang@ =~= seq!['c', 'l', 'a', 'n', 'g']);
        }
        match file_name_chars(&chars) {
            Some(name) => {
                if chars_are(&name, &cl) {
                    Detect::Cl
                } else if chars_are(&name, &gcc) || chars_are(&name, &clang) {
                    Detect::Clang
                } else {
                    Detect::Disabled
                }
            },
            None => Detect::Disabled,
        }
    }
}

/// Whether a character is white space, as `char::is_whitespace` decides:
/// the characters with the Unicode `White_Space` property.
pub open spec fn is_whitespace(c: char) -> bool {
    let u = c as u32;
    ||| 0x09 <= u <= 0x0d
    ||| u == 0x20
    ||| u == 0x85
    ||| u == 0xa0
    ||| u == 0x1680
    ||| 0x2000 <= u <= 0x200a
    ||| u == 0x2028
    ||| u == 0x2029
    ||| u == 0x202f
    ||| u == 0x205f
    ||| u == 0x3000
}

/// Whether a character is white space.
fn char_is_whitespace(c: char) -> (r: bool)
    ensures
        r == is_whitespace(c),
{
    let u = c as u32;
    (0x09 <= u && u <= 0x0d) || u == 0x20 || u == 0x85 || u == 0xa0 || u == 0x1680
        || (0x2000 <= u && u <= 0x200a) || u == 0x2028 || u == 0x2029 || u == 0x202f
        || u == 0x205f || u == 0x3000
}

/// `s` without its leading whitespace.
pub open spec fn trim_start(s: Seq<char>) -> Seq<char>
    decreases s.len(),
{
    if s.len() > 0 && is_whitespace(s[0]) {
        trim_start(s.drop_first())
    } else {
        s
    }
}

/// `s` without its trailing whitespace.
pub open spec fn trim_end(s: Seq<char>) -> Seq<char>
    decreases s.len(),
{
    if s.len() > 0 && is_whitespace(s.last()) {
        trim_end(s.drop_last())
    } else {
        s
    }
}

/// `s` without leading or trailing whitespace, as `str::trim` gives it.
pub open spec fn trim(s: Seq<char>) -> Seq<char> {
    trim_end(trim_start(s))
}

/// The characters of `s` without leading or trailing whitespace.
fn trim_chars(s: &Vec<char>) -> (r: Vec<char>)
    ensures
        r@ == trim(s@),
{
    let n = s.len();
    let mut i: usize = 0;
    proof {
        assert(s@.subrange(0, n as int) =~= s@);
    }
    while i < n && char_is_whitespace(s[i])
        invariant
            i <= n,
            n == s@.len(),
            trim_start(s@) == trim_start(s@.subrange(i as int, n as int)),
        decreases n - i,
    {
        proof {
            assert(s@.subrange(i + 1, n as int) =~= s@.subrange(i as int, n as int).drop_first());
        }
        i = i + 1;
    }
    let mut j: usize = n;
    proof {
        assert(trim_start(s@) == s@.subrange(i as int, n as int));
    }
    while j > i && char_is_whitespace(s[j - 1])
        invariant
            i <= j <= n,
            n == s@.len(),
            trim(s@) == trim_end(s@.subrange(i as int, j as int)),
        decreases j,
    {
        proof {
            assert(s@.subrange(i as int, j - 1) =~= s@.subrange(i as int, j as int).drop_last());
        }
        j = j - 1;
    }
    let mut out: Vec<char> = Vec::new();
    let mut k: usize = i;
    while k < j
        invariant
            i <= k <= j <= n,
            n == s@.len(),
            out@ == s@.subrange(i as int, k as int),
        decreases j - k,
    {
        out.push(s[k]);
        k = k + 1;
        proof {
            assert(out@ =~= s@.subrange(i as int, k as int));
        }
    }
    out
}

/// The extension of the path's file name is `tlh`, as `Path::extension`
/// finds it: the name ends in `.tlh` and the dot is not its first
/// character.
pub open spec fn has_tlh_extension(path: Seq<char>) -> bool {
    match file_name(path) {
        Some(n) => n.len() > 4 && n.subrange(n.len() - 4, n.len() as int) == seq!['.', 't', 'l', 'h'],
        None => false,
    }
}

/// Whether an included file is an output of the compilation rather than
/// an input: a `.tlh` file is generated by an `#import` and then included.
pub fn include_is_output(path: &str) -> (r: bool)
    ensures
        r == has_tlh_extension(path@),
{
    let chars = str_chars(path);
    match file_name_chars(&chars) {
        Some(name) => {
            let n = name.len();
            if n <= 4 {
                return false;
            }
            let r = name[n - 4] == '.' && name[n - 3] == 't' && name[n - 2] == 'l' && name[n - 1] == 'h';
            proof {
                let tail = name@.subrange(n - 4, n as int);
                if r {
                    assert(tail =~= seq!['.', 't', 'l', 'h']);
                } else {
                    assert(tail[0] == name@[n - 4] && tail[1] == name@[n - 3] && tail[2] == name@[n - 2] && tail[3] == name@[n - 1]);
                }
            }
            r
        },
        None => false,
    }
}

/// Records a file that the compiler included, given by its path below the
/// project root: a `.tlh` file as an output, any other as an input.
pub fn add_include(detected: &mut Detected<FilePath>, path: &str)
    requires
        old(detected).wf(),
    ensures
        final(detected).wf(),
        has_tlh_extension(path@) ==> final(detected).inputs == old(detected).inputs
            && view_set(final(detected).outputs@) == view_set(old(detected).outputs@).insert(fold_case(normalize(path@))),
        !has_tlh_extension(path@) ==> final(detected).outputs == old(detected).outputs
            && view_set(final(detected).inputs@) == view_set(old(detected).inputs@).insert(fold_case(normalize(path@))),
{
    proof {
        lemma_file_path_obeys_view_eq();
    }
    let f = FilePath::new(path);
    if include_is_output(path) {
        detected.add_output(f);
    } else {
        detected.add_input(f);
    }
}

/// The text with which `cl.exe` announces each file it includes.
pub open spec fn include_prefix() -> Seq<char> {
    "Note: including file: "@
}

/// The file that a line of `cl.exe`'s `/showIncludes` output names, with
/// the surrounding whitespace trimmed; none for any other line, which is
/// the compiler's own output.
pub fn include_of(line: &str) -> (r: Option<String>)
    ensures
        match r {
            Some(f) => include_prefix().is_prefix_of(line@)
                && f@ == trim(line@.subrange(include_prefix().len() as int, line@.len() as int)),
            None => !include_prefix().is_prefix_of(line@),
        },
{
    let text = str_chars(line);
    let prefix = str_chars("Note: including file: ");
    if text.len() < prefix.len() {
        return None;
    }
    let mut i: usize = 0;
    while i < prefix.len()
        invariant
            i <= prefix@.len() <= text@.len(),
            prefix@ == include_prefix(),
            text@ == line@,
            forall|k: int| 0 <= k < i ==> text@[k] == prefix@[k],
        decreases prefix@.len() - i,
    {
        if text[i] != prefix[i] {
            return None;
        }
        i = i + 1;
    }
    let mut rest: Vec<char> = Vec::new();
    let mut k: usize = prefix.len();
    while k < text.len()
        invariant
            prefix@.len() <= k <= text@.len(),
            rest@ == text@.subrange(prefix@.len() as int, k as int),
        decreases text@.len() - k,
    {
        rest.push(text[k]);
        k = k + 1;
        proof {
            assert(rest@ =~= text@.subrange(prefix@.len() as int, k as int));
        }
    }
    let trimmed = trim_chars(&rest);
    Some(string_from_chars(&trimmed))
}

/// The path below `root` of `path`, as `Path::strip_prefix` finds it: when
/// the components of `root` begin the components of `path`, the remaining
/// components joined by `/`.
pub fn below_root(path: &str, root: &str) -> (r: Option<String>)
    ensures
        match r {
            Some(rel) => path_components(root@).is_prefix_of(path_components(path@))
                && rel@ == join_path(path_components(path@).subrange(path_components(root@).len() as int, path_components(path@).len() as int)),
            None => !path_components(root@).is_prefix_of(path_components(path@)),
        },
{
    let p = components_of(&str_chars(path));
    let q = components_of(&str_chars(root));
    if q.len() > p.len() {
        return None;
    }
    let mut i: usize = 0;
    while i < q.len()
        invariant
            i <= q@.len() <= p@.len(),
            char_views(p@) == path_components(path@),
            char_views(q@) == path_components(root@),
            forall|k: int| 0 <= k < i ==> p@[k]@ == q@[k]@,
        decreases q@.len() - i,
    {
        if !chars_equal(&p[i], &q[i]) {
            proof {
                assert(char_views(q@)[i as int] != char_views(p@)[i as int]);
            }
            return None;
        }
        i = i + 1;
    }
    proof {
        assert forall|k: int| 0 <= k < char_views(q@).len() implies char_views(q@)[k] == char_views(p@)[k] by {
            assert(p@[k]@ == q@[k]@);
        }
    }
    // Join the rest with `/`.
    let mut out: Vec<char> = Vec::new();
    let mut k: usize = q.len();
    let ghost rest = char_views(p@).subrange(q@.len() as int, p@.len() as int);
    while k < p.len()
        invariant
            q@.len() <= k <= p@.len(),
            rest == char_views(p@).subrange(q@.len() as int, p@.len() as int),
            out@ == join_path(rest.subrange(0, k - q@.len())),
        decreases p@.len() - k,
    {
        let ghost pre = rest.subrange(0, k - q@.len());
        if k > q.len() {
            out.push('/');
        }
        let piece = &p[k];
        let mut c: usize = 0;
        let ghost start = out@;
        while c < piece.len()
            invariant
                c <= piece@.len(),
                out@ == start + piece@.subrange(0, c as int),
            decreases piece@.len() - c,
        {
            out.push(piece[c]);
            c = c + 1;
            proof {
                assert(out@ =~= start + piece@.subrange(0, c as int));
            }
        }
        proof {
            assert(piece@.subrange(0, piece@.len() as int) =~= piece@);
            let post = rest.subrange(0, k + 1 - q@.len());
            assert(post.drop_last() =~= pre);
            assert(post.last() == piece@);
            if k > q@.len() {
                assert(out@ =~= join_path(pre) + seq!['/'] + piece@);
            } else {
                assert(pre.len() == 0);
                assert(out@ =~= piece@);
            }
        }
        k = k + 1;
    }
    proof {
        assert(rest.subrange(0, p@.len() - q@.len()) =~= rest);
    }
    Some(string_from_chars(&out))
}


} // verus!
