//! The command line: `[fastfmt] [--check] [--width N] [PATH...]`.

use vstd::prelude::*;
use crate::text::{chars_of, str_is};
use crate::config::{parse_usize, parse_usize_of};
use vstd::string::*;

verus! {

/// What the command line asks for.
pub struct Options {
    /// `--check`: report what would change, write nothing.
    pub check: bool,
    /// The number after the first `--width`, when it parses.
    pub width: Option<usize>,
    /// The files and directories to format.
    pub paths: Vec<String>,
}

pub struct OptionsView {
    pub check: bool,
    pub width: Option<usize>,
    pub paths: Seq<Seq<char>>,
}

impl DeepView for Options {
    type V = OptionsView;

    open spec fn deep_view(&self) -> OptionsView {
        OptionsView { check: self.check, width: self.width, paths: self.paths.deep_view() }
    }
}

/// The arguments without the `fastfmt` that cargo passes first when run as
/// `cargo fastfmt`.
pub open spec fn own_args(a: Seq<Seq<char>>) -> Seq<Seq<char>> {
    if a.len() > 0 && a[0] == "fastfmt"@ {
        a.drop_first()
    } else {
        a
    }
}

/// Index of the first `x` in `a` from `k` on, or -1.
pub open spec fn index_from(a: Seq<Seq<char>>, x: Seq<char>, k: int) -> int
    decreases a.len() - k,
{
    if k < 0 || k >= a.len() {
        -1
    } else if a[k] == x {
        k
    } else {
        index_from(a, x, k + 1)
    }
}

pub proof fn lemma_index_from(a: Seq<Seq<char>>, x: Seq<char>, k: int)
    requires
        0 <= k,
    ensures
        index_from(a, x, k) == -1 || (k <= index_from(a, x, k) < a.len() && a[index_from(a, x, k)] == x),
    decreases a.len() - k,
{
    if k < a.len() && a[k] != x {
        lemma_index_from(a, x, k + 1);
    }
}

/// The value after the first `--width`, if there is one and it parses.
pub open spec fn width_flag(a: Seq<Seq<char>>) -> Option<usize> {
    let i = index_from(a, "--width"@, 0);
    if i < 0 || i + 1 >= a.len() {
        None
    } else {
        parse_usize(a[i + 1])
    }
}

/// The paths among the arguments from `i` on: everything but `--check`,
/// `--width` and the argument after a `--width`; `skip` passes over argument `i`.
pub open spec fn paths_from(a: Seq<Seq<char>>, i: int, skip: bool) -> Seq<Seq<char>>
    decreases a.len() - i,
{
    if i < 0 || i >= a.len() {
        Seq::empty()
    } else if skip {
        paths_from(a, i + 1, false)
    } else if a[i] == "--check"@ {
        paths_from(a, i + 1, false)
    } else if a[i] == "--width"@ {
        paths_from(a, i + 1, true)
    } else if i > 0 && a[i - 1] == "--width"@ {
        paths_from(a, i + 1, false)
    } else {
        seq![a[i]] + paths_from(a, i + 1, false)
    }
}

/// The options of a command line (the program name left out); without a path
/// the current directory is formatted.
pub open spec fn options_of(args: Seq<Seq<char>>) -> OptionsView {
    let a = own_args(args);
    let p = paths_from(a, 0, false);
    OptionsView {
        check: exists|i: int| 0 <= i < a.len() && #[trigger] a[i] == "--check"@,
        width: width_flag(a),
        paths: if p.len() == 0 {
            seq!["."@]
        } else {
            p
        },
    }
}

/// Reads the command line, the program name left out.
pub fn parse_args(args: &Vec<String>) -> (o: Options)
    ensures
        o.deep_view() == options_of(args.deep_view()),
{
    let ghost full = args.deep_view();
    let from: usize = if args.len() > 0 && str_is(&args[0], "fastfmt") {
        1
    } else {
        0
    };
    let ghost a = own_args(full);
    assert(a =~= full.skip(from as int)) by {
        if from == 0 {
            assert(full.skip(0) =~= full);
        } else {
            assert(full[0] == args@[0]@);
        }
    }
    let n = args.len();
    let mut check = false;
    let mut width: Option<usize> = None;
    let mut width_seen = false;
    let mut paths: Vec<String> = Vec::new();
    let mut skip = false;
    let mut i = from;
    assert(paths_from(a, 0, false) == paths.deep_view() + paths_from(a, 0, false)) by {
        assert(paths.deep_view() =~= Seq::<Seq<char>>::empty());
        assert(Seq::<Seq<char>>::empty() + paths_from(a, 0, false) =~= paths_from(a, 0, false));
    }
    while i < n
        invariant
            from <= i <= n == args@.len(),
            full == args.deep_view(),
            a == full.skip(from as int),
            a == own_args(full),
            check == exists|j: int| 0 <= j < i - from && #[trigger] a[j] == "--check"@,
            width_seen == (index_from(a, "--width"@, 0) >= 0 && index_from(a, "--width"@, 0) < i
                - from),
            !width_seen ==> index_from(a, "--width"@, 0) == index_from(a, "--width"@, i - from),
            width_seen ==> width == width_flag(a),
            !width_seen ==> width is None,
            paths_from(a, 0, false) == paths.deep_view() + paths_from(a, i - from, skip),
        decreases n - i,
    {
        let ghost j = i - from;
        assert(a[j] == args@[i as int]@);
        proof {
            lemma_index_from(a, "--width"@, j + 1);
            lemma_index_from(a, "--width"@, 0);
        }
        let is_check = str_is(&args[i], "--check");
        let is_width = str_is(&args[i], "--width");
        if is_check {
            check = true;
        }
        if is_width && !width_seen {
            width_seen = true;
            width = if i + 1 < n {
                assert(a[j + 1] == args@[i + 1]@);
                parse_usize_of(&chars_of(args[i + 1].as_str()))
            } else {
                None
            };
        }
        let ghost pv = paths.deep_view();
        if skip {
            skip = false;
        } else if is_check {
        } else if is_width {
            skip = true;
        } else if i > from && str_is(&args[i - 1], "--width") {
            assert(a[j - 1] == args@[i - 1]@);
        } else {
            paths.push(args[i].clone());
            assert(paths.deep_view() =~= pv.push(a[j]));
            assert(pv + paths_from(a, j, false) =~= paths.deep_view() + paths_from(a, j + 1, false));
        }
        i = i + 1;
    }
    assert(paths_from(a, n - from, skip) == Seq::<Seq<char>>::empty());
    assert(paths.deep_view() =~= paths_from(a, 0, false));
    assert(index_from(a, "--width"@, (n - from) as int) == -1);
    assert(width == width_flag(a));
    if paths.len() == 0 {
        paths.push(String::from_str("."));
    }
    let o = Options { check, width, paths };
    assert(o.deep_view().paths =~= options_of(full).paths);
    o
}

/// `--check` is asked for exactly when some argument, wherever it stands,
/// is `--check`.
pub proof fn law_check_anywhere(args: Seq<Seq<char>>)
    ensures
        options_of(args).check <==> exists|i: int| 0 <= i < args.len() && #[trigger] args[i] == "--check"@,
{
    reveal_strlit("fastfmt");
    reveal_strlit("--check");
    let a = own_args(args);
    if args.len() > 0 && args[0] == "fastfmt"@ {
        assert(args[0] != "--check"@) by {
            assert(args[0][0] != "--check"@[0]);
        }
        if exists|i: int| 0 <= i < args.len() && #[trigger] args[i] == "--check"@ {
            let i = choose|i: int| 0 <= i < args.len() && #[trigger] args[i] == "--check"@;
            assert(i > 0);
            assert(a[i - 1] == args[i]);
        }
        if exists|i: int| 0 <= i < a.len() && #[trigger] a[i] == "--check"@ {
            let i = choose|i: int| 0 <= i < a.len() && #[trigger] a[i] == "--check"@;
            assert(args[i + 1] == a[i]);
        }
    }
}

/// The width is the argument right after the first `--width`, read as a
/// number; with no `--width`, or nothing after it, there is none.
pub proof fn law_width_after_flag(args: Seq<Seq<char>>, i: int)
    requires
        0 <= i < args.len(),
        args[i] == "--width"@,
        forall|j: int| 0 <= j < i ==> #[trigger] args[j] != "--width"@,
    ensures
        i + 1 < args.len() ==> options_of(args).width == parse_usize(args[i + 1]),
        i + 1 == args.len() ==> options_of(args).width is None,
{
    reveal_strlit("fastfmt");
    reveal_strlit("--width");
    let a = own_args(args);
    assert(args[i][0] != "fastfmt"@[0]);
    if args.len() > 0 && args[0] == "fastfmt"@ {
        assert(i > 0);
        lemma_index_at(a, "--width"@, 0, i - 1);
    } else {
        lemma_index_at(a, "--width"@, 0, i);
    }
}

proof fn lemma_index_at(a: Seq<Seq<char>>, x: Seq<char>, k: int, i: int)
    requires
        0 <= k <= i < a.len(),
        a[i] == x,
        forall|j: int| k <= j < i ==> a[j] != x,
    ensures
        index_from(a, x, k) == i,
    decreases i - k,
{
    if k < i {
        lemma_index_at(a, x, k + 1, i);
    }
}

} // verus!
