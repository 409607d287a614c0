use std::str::FromStr;

use vstd::prelude::*;

use crate::res::{char_views, components_of, join_path, path_components, str_chars, str_eq, string_from_chars};

verus! {

/// The name of the rules file.
pub const RULES: &'static str = "button.json";

/// The directory where the build keeps its state.
pub const DIR: &'static str = ".button";

/// The file where the build state is saved.
pub const STATE: &'static str = ".button/state";

/// The file where the last build log is stored.
pub const LOG: &'static str = ".button/log";

/// The number of decimal digits of `n`: 1 for 0 through 9, one more for
/// each further power of ten.
pub open spec fn digits(n: nat) -> nat
    decreases n,
{
    if n < 10 {
        1
    } else {
        1 + digits(n / 10)
    }
}

/// The number of characters that a number takes up in decimal, for
/// padding numbers to the same width.
pub fn num_width(max_value: usize) -> (r: usize)
    ensures
        r == digits(max_value as nat),
{
    let mut m = max_value;
    let mut count: usize = 1;
    proof {
        lemma_digits_bound(max_value as nat);
    }
    while m >= 10
        invariant
            count + digits(m as nat) == digits(max_value as nat) + 1,
            max_value >= 1 ==> digits(max_value as nat) <= max_value,
            m <= max_value,
            1 <= count,
        decreases m,
    {
        proof {
            lemma_digits_pos((m / 10) as nat);
        }
        m = m / 10;
        count = count + 1;
    }
    count
}

proof fn lemma_digits_pos(n: nat)
    ensures
        digits(n) >= 1,
{
}

proof fn lemma_digits_bound(n: nat)
    ensures
        n >= 1 ==> digits(n) <= n,
    decreases n,
{
    if n >= 10 {
        lemma_digits_bound(n / 10);
    }
}

/// When to color command output.
#[derive(Copy, Clone, Debug, PartialEq, Eq, Structural)]
pub enum Coloring {
    Auto,
    Never,
    Always,
}

impl Coloring {
    /// Reads `auto`, `never` or `always`.
    pub fn parse(s: &str) -> (r: Result<Coloring, ()>)
        ensures
            r == if s@ == "auto"@ {
                Ok(Coloring::Auto)
            } else if s@ == "never"@ {
                Ok(Coloring::Never)
            } else if s@ == "always"@ {
                Ok(Coloring::Always)
            } else {
                Err(())
            },
    {
        if str_eq(s, "auto") {
            Ok(Coloring::Auto)
        } else if str_eq(s, "never") {
            Ok(Coloring::Never)
        } else if str_eq(s, "always") {
            Ok(Coloring::Always)
        } else {
            Err(())
        }
    }
}

impl FromStr for Coloring {
    type Err = ();

    fn from_str(s: &str) -> (r: Result<Coloring, ()>)
        ensures
            r == if s@ == "auto"@ {
                Ok(Coloring::Auto)
            } else if s@ == "never"@ {
                Ok(Coloring::Never)
            } else if s@ == "always"@ {
                Ok(Coloring::Always)
            } else {
                Err(())
            },
    {
        Coloring::parse(s)
    }
}

/// When to color output, as the terminal library knows it.
#[derive(Copy, Clone, Debug, PartialEq, Eq, Structural)]
pub enum ColorChoice {
    /// Color when writing to a terminal.
    Auto,
    /// Always color, in the terminal's own way.
    Always,
    /// Always color, with ANSI escape codes.
    AlwaysAnsi,
    /// Never color.
    Never,
}

impl ColorChoice {
    /// The names the command line accepts.
    pub fn variants() -> (r: [&'static str; 4])
        ensures
            r@[0]@ == "auto"@,
            r@[1]@ == "always"@,
            r@[2]@ == "ansi"@,
            r@[3]@ == "never"@,
    {
        ["auto", "always", "ansi", "never"]
    }

    /// Reads `auto`, `always`, `ansi` or `never`.
    pub fn parse(s: &str) -> (r: Result<ColorChoice, &'static str>)
        ensures
            match r {
                Ok(c) => c == if s@ == "auto"@ {
                    ColorChoice::Auto
                } else if s@ == "always"@ {
                    ColorChoice::Always
                } else if s@ == "ansi"@ {
                    ColorChoice::AlwaysAnsi
                } else {
                    ColorChoice::Never
                },
                Err(m) => m@ == "invalid color choice"@,
            },
            r is Ok <==> (s@ == "auto"@ || s@ == "always"@ || s@ == "ansi"@ || s@ == "never"@),
    {
        if str_eq(s, "auto") {
            Ok(ColorChoice::Auto)
        } else if str_eq(s, "always") {
            Ok(ColorChoice::Always)
        } else if str_eq(s, "ansi") {
            Ok(ColorChoice::AlwaysAnsi)
        } else if str_eq(s, "never") {
            Ok(ColorChoice::Never)
        } else {
            Err("invalid color choice")
        }
    }

    /// The choice to use when standard output is, or is not, a terminal:
    /// `Auto` turns into `Never` when the output goes elsewhere.
    pub fn for_output(self, stdout_is_terminal: bool) -> (r: ColorChoice)
        ensures
            r == if self == ColorChoice::Auto && !stdout_is_terminal { ColorChoice::Never } else { self },
    {
        match self {
            ColorChoice::Auto => {
                if stdout_is_terminal {
                    ColorChoice::Auto
                } else {
                    ColorChoice::Never
                }
            },
            other => other,
        }
    }
}

impl FromStr for ColorChoice {
    type Err = &'static str;

    fn from_str(s: &str) -> (r: Result<ColorChoice, &'static str>)
        ensures
            match r {
                Ok(c) => c == if s@ == "auto"@ {
                    ColorChoice::Auto
                } else if s@ == "always"@ {
                    ColorChoice::Always
                } else if s@ == "ansi"@ {
                    ColorChoice::AlwaysAnsi
                } else {
                    ColorChoice::Never
                },
                Err(m) => m@ == "invalid color choice"@,
            },
            r is Ok <==> (s@ == "auto"@ || s@ == "always"@ || s@ == "ansi"@ || s@ == "never"@),
    {
        ColorChoice::parse(s)
    }
}

/// Which edges of the build graph to show.
#[derive(Copy, Clone, Debug, PartialEq, Eq, Structural)]
pub enum Edges {
    Explicit,
    Implicit,
    Both,
}

impl Edges {
    /// Reads `explicit`, `implicit` or `both`.
    pub fn parse(s: &str) -> (r: Result<Edges, ()>)
        ensures
            r == if s@ == "explicit"@ {
                Ok(Edges::Explicit)
            } else if s@ == "implicit"@ {
                Ok(Edges::Implicit)
            } else if s@ == "both"@ {
                Ok(Edges::Both)
            } else {
                Err(())
            },
    {
        if str_eq(s, "explicit") {
            Ok(Edges::Explicit)
        } else if str_eq(s, "implicit") {
            Ok(Edges::Implicit)
        } else if str_eq(s, "both") {
            Ok(Edges::Both)
        } else {
            Err(())
        }
    }
}

impl FromStr for Edges {
    type Err = ();

    fn from_str(s: &str) -> (r: Result<Edges, ()>)
        ensures
            r == if s@ == "explicit"@ {
                Ok(Edges::Explicit)
            } else if s@ == "implicit"@ {
                Ok(Edges::Implicit)
            } else if s@ == "both"@ {
                Ok(Edges::Both)
            } else {
                Err(())
            },
    {
        Edges::parse(s)
    }
}

/// Where the rules file is looked for in the directory with these path
/// components: `button.json` pushed onto the directory.
pub open spec fn candidate(comps: Seq<Seq<char>>) -> Seq<char> {
    if comps.len() == 0 {
        RULES@
    } else if comps[0] == seq!['/'] {
        if comps.len() == 1 {
            seq!['/'] + RULES@
        } else {
            seq!['/'] + join_path(comps.drop_first()) + seq!['/'] + RULES@
        }
    } else {
        join_path(comps) + seq!['/'] + RULES@
    }
}

/// The places where the rules file is looked for, starting in the
/// directory with these components and going up through its parents, as
/// `Path::parent` finds them, until there is no parent: the root and the
/// empty path have none.
pub open spec fn search_paths(comps: Seq<Seq<char>>) -> Seq<Seq<char>>
    decreases comps.len(),
{
    if comps.len() == 0 || comps == seq![seq!['/']] {
        seq![candidate(comps)]
    } else {
        seq![candidate(comps)] + search_paths(comps.drop_last())
    }
}

/// Appends the characters of `piece`.
pub(crate) fn append_chars(out: &mut Vec<char>, piece: &Vec<char>)
    ensures
        final(out)@ == old(out)@ + piece@,
{
    let ghost start = out@;
    let mut c: usize = 0;
    while c < piece.len()
        invariant
            c <= piece@.len(),
            out@ == start + piece@.subrange(0, c as int),
        decreases piece@.len() - c,
    {
        out.push(piece[c]);
        c = c + 1;
        proof {
            assert(out@ =~= start + piece@.subrange(0, c as int));
        }
    }
    proof {
        assert(piece@.subrange(0, piece@.len() as int) =~= piece@);
    }
}

/// The components `from..upto` joined by `/`.
fn joined(comps: &Vec<Vec<char>>, from: usize, upto: usize) -> (r: Vec<char>)
    requires
        from <= upto <= comps@.len(),
    ensures
        r@ == join_path(char_views(comps@).subrange(from as int, upto as int)),
{
    let ghost all = char_views(comps@);
    let mut out: Vec<char> = Vec::new();
    let mut k: usize = from;
    proof {
        assert(all.subrange(from as int, from as int) =~= Seq::<Seq<char>>::empty());
    }
    while k < upto
        invariant
            from <= k <= upto <= comps@.len(),
            all == char_views(comps@),
            out@ == join_path(all.subrange(from as int, k as int)),
        decreases upto - k,
    {
        let ghost pre = all.subrange(from as int, k as int);
        if k > from {
            out.push('/');
        }
        append_chars(&mut out, &comps[k]);
        proof {
            let post = all.subrange(from as int, k + 1);
            assert(post.drop_last() =~= pre);
            assert(post.last() == comps@[k as int]@);
            if k > from {
                assert(out@ =~= join_path(pre) + seq!['/'] + comps@[k as int]@);
            } else {
                assert(pre.len() == 0);
                assert(post =~= seq![comps@[k as int]@]);
            }
        }
        k = k + 1;
    }
    out
}

/// The candidate for the directory with the first `upto` components.
fn candidate_chars(comps: &Vec<Vec<char>>, upto: usize, name: &Vec<char>) -> (r: Vec<char>)
    requires
        upto <= comps@.len(),
        name@ == RULES@,
    ensures
        r@ == candidate(char_views(comps@).subrange(0, upto as int)),
{
    let ghost cs = char_views(comps@).subrange(0, upto as int);
    let rooted = upto > 0 && comps[0].len() == 1 && comps[0][0] == '/';
    proof {
        if upto > 0 {
            assert(cs[0] == comps@[0]@);
            if comps@[0]@ == seq!['/'] {
                assert(comps@[0]@.len() == 1 && comps@[0]@[0] == '/');
            }
            if rooted {
                assert(comps@[0]@ =~= seq!['/']);
            }
        }
    }
    let mut out: Vec<char> = Vec::new();
    if upto == 0 {
        append_chars(&mut out, name);
        proof {
            assert(out@ =~= RULES@);
        }
    } else if rooted {
        out.push('/');
        if upto > 1 {
            let rest = joined(comps, 1, upto);
            append_chars(&mut out, &rest);
            out.push('/');
            proof {
                assert(char_views(comps@).subrange(1, upto as int) =~= cs.drop_first());
            }
        }
        append_chars(&mut out, name);
    } else {
        out = joined(comps, 0, upto);
        out.push('/');
        append_chars(&mut out, name);
    }
    out
}

/// The paths, in search order, where the rules file `button.json` is
/// looked for: in `start` and then in each of its parents, as
/// `Path::parent` gives them, until there is none. The first that names a
/// file is the one to use.
pub fn rules_search_paths(start: &str) -> (r: Vec<String>)
    ensures
        r@.len() == search_paths(path_components(start@)).len(),
        forall|i: int| 0 <= i < r@.len() ==> (#[trigger] r@[i])@ == search_paths(path_components(start@))[i],
{
    let comps = components_of(&str_chars(start));
    let name = str_chars(RULES);
    let ghost all = char_views(comps@);
    let ghost target = search_paths(all);
    let mut out: Vec<String> = Vec::new();
    let mut upto: usize = comps.len();
    proof {
        assert(all.subrange(0, upto as int) =~= all);
    }
    loop
        invariant
            name@ == RULES@,
            upto <= comps@.len(),
            all == char_views(comps@),
            target == search_paths(path_components(start@)),
            all == path_components(start@),
            out@.len() + search_paths(all.subrange(0, upto as int)).len() == target.len(),
            forall|i: int| 0 <= i < out@.len() ==> (#[trigger] out@[i])@ == target[i],
            forall|i: int| 0 <= i < search_paths(all.subrange(0, upto as int)).len()
                ==> #[trigger] search_paths(all.subrange(0, upto as int))[i] == target[out@.len() + i],
        decreases upto,
    {
        let here = candidate_chars(&comps, upto, &name);
        let ghost cs = all.subrange(0, upto as int);
        let ghost rest = search_paths(cs);
        out.push(string_from_chars(&here));
        proof {
            assert(rest[0] == candidate(cs));
        }
        let rooted_only = upto == 1 && comps[0].len() == 1 && comps[0][0] == '/';
        proof {
            if upto == 1 {
                assert(cs[0] == comps@[0]@);
                if rooted_only {
                    assert(comps@[0]@ =~= seq!['/']);
                    assert(cs =~= seq![seq!['/']]);
                }
                if cs == seq![seq!['/']] {
                    assert(comps@[0]@.len() == 1 && comps@[0]@[0] == '/');
                }
            }
        }
        if upto == 0 || rooted_only {
            proof {
                assert(rest.len() == 1);
                assert forall|i: int| 0 <= i < out@.len() implies (#[trigger] out@[i])@ == target[i] by {
                    if i == out@.len() - 1 {
                        assert(rest[0] == target[out@.len() - 1]);
                    }
                }
            }
            return out;
        }
        proof {
            let next = search_paths(all.subrange(0, upto - 1));
            assert(cs.drop_last() =~= all.subrange(0, upto - 1));
            assert(rest == seq![candidate(cs)] + next);
            assert forall|i: int| 0 <= i < next.len() implies #[trigger] next[i] == target[out@.len() + i] by {
                assert(rest[i + 1] == next[i]);
            }
            assert forall|i: int| 0 <= i < out@.len() implies (#[trigger] out@[i])@ == target[i] by {
                if i == out@.len() - 1 {
                    assert(rest[0] == target[out@.len() - 1]);
                }
            }
        }
        upto = upto - 1;
    }
}

/// The `clean` command: deletes the outputs of the build.
#[derive(Clone, Debug)]
pub struct Clean {
    /// Path to the build rules; found by searching when absent.
    pub rules: Option<String>,
    /// Only prints what would be deleted.
    pub dryrun: bool,
    /// Prints more.
    pub verbose: bool,
    /// The number of threads; 0 for one per logical core.
    pub threads: usize,
}

impl Clean {
    /// The number of threads to use, given the number of logical cores.
    pub fn thread_count(&self, cores: usize) -> (r: usize)
        ensures
            r == if self.threads == 0 { cores } else { self.threads },
    {
        if self.threads == 0 {
            cores
        } else {
            self.threads
        }
    }
}

/// The `dump` command: prints the rules of the stored build graph.
#[derive(Clone, Debug)]
pub struct Dump {
    /// Path to the build rules; found by searching when absent.
    pub rules: Option<String>,
}

/// The `replay` command: plays back a build log.
#[derive(Clone, Debug)]
pub struct Replay {
    /// Path to the log; the log of the last build when absent.
    pub path: Option<String>,
    /// Plays back in real time.
    pub realtime: bool,
    /// Prints more.
    pub verbose: bool,
}

/// The `test` command: asks a build server for a build.
#[derive(Copy, Clone, Debug)]
pub struct Test {
    /// Port of the server.
    pub port: u16,
}

} // verus!
