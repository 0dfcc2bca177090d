//! What a tree listing is asked for, and the lines that it writes.

use crate::text;
use crate::tree::{Node, SortField, SortPlan, TreeOptions};
use crate::tree_git;
use vstd::prelude::*;

verus! {

/// When something is done: always, in a terminal only, or never.
#[derive(Clone, Copy, Debug, PartialEq, Eq, Structural)]
pub enum OutputMode {
    Always,
    Auto,
    Never,
}

/// Whether something is done.
pub open spec fn is_enabled(mode: OutputMode, is_tty: bool) -> bool {
    mode == OutputMode::Always || (mode == OutputMode::Auto && is_tty)
}

/// Tells whether something is done.
pub fn output_mode_enabled(mode: OutputMode, is_tty: bool) -> (r: bool)
    ensures
        r == is_enabled(mode, is_tty),
{
    match mode {
        OutputMode::Always => true,
        OutputMode::Auto => is_tty,
        OutputMode::Never => false,
    }
}

/// What is wrong with an order that is asked for.
pub enum SortError {
    /// Not a field and a direction.
    Arity,
    Field(String),
    Direction(String),
}

/// The field that a word names, in upper or lower case.
pub open spec fn field_named(word: Seq<char>) -> Option<SortField> {
    let w = text::lower(word);
    if w == "name"@ {
        Some(SortField::Name)
    } else if w == "size"@ {
        Some(SortField::Size)
    } else if w == "time"@ || w == "date"@ || w == "mtime"@ {
        Some(SortField::Time)
    } else if w == "count"@ || w == "counts"@ {
        Some(SortField::Count)
    } else {
        None
    }
}

fn read_field(word: &str) -> (r: Option<SortField>)
    ensures
        r == field_named(word@),
{
    let w = text::to_lower(text::to_chars(word).as_slice());
    let s = w.as_slice();
    if text::is_text(s, "name") {
        Some(SortField::Name)
    } else if text::is_text(s, "size") {
        Some(SortField::Size)
    } else if text::is_text(s, "time") || text::is_text(s, "date") || text::is_text(s, "mtime") {
        Some(SortField::Time)
    } else if text::is_text(s, "count") || text::is_text(s, "counts") {
        Some(SortField::Count)
    } else {
        None
    }
}

/// Whether a word names a direction, and if so, whether the descending one.
pub open spec fn direction_named(word: Seq<char>) -> Option<bool> {
    let w = text::lower(word);
    if w == "asc"@ {
        Some(false)
    } else if w == "desc"@ {
        Some(true)
    } else {
        None
    }
}

/// Reads the order that is asked for.
pub fn validate_sort(sort: &Option<Vec<String>>) -> (r: Result<Option<SortPlan>, SortError>)
    ensures
        match *sort {
            None => r == Ok::<Option<SortPlan>, SortError>(None),
            Some(v) => if v@.len() != 2 {
                r == Err::<Option<SortPlan>, SortError>(SortError::Arity)
            } else {
                match (field_named(v@[0]@), direction_named(v@[1]@)) {
                    (Some(field), Some(descending)) => r == Ok::<Option<SortPlan>, SortError>(
                        Some(SortPlan { field, descending }),
                    ),
                    (None, _) => r is Err && r->Err_0 is Field && r->Err_0->Field_0@ == v@[0]@,
                    (Some(_), None) => r is Err && r->Err_0 is Direction && r->Err_0->Direction_0@
                        == v@[1]@,
                }
            },
        },
{
    let v = match sort {
        None => {
            return Ok(None);
        },
        Some(v) => v,
    };
    if v.len() != 2 {
        return Err(SortError::Arity);
    }
    let field = match read_field(v[0].as_str()) {
        Some(f) => f,
        None => {
            return Err(SortError::Field(v[0].clone()));
        },
    };
    let w = text::to_lower(text::to_chars(v[1].as_str()).as_slice());
    let descending = if text::is_text(w.as_slice(), "asc") {
        false
    } else if text::is_text(w.as_slice(), "desc") {
        true
    } else {
        return Err(SortError::Direction(v[1].clone()));
    };
    Ok(Some(SortPlan { field, descending }))
}

/// Whether an order needs more than names.
pub open spec fn sort_needs_metadata(sort: Option<SortPlan>) -> bool {
    match sort {
        Some(p) => p.field == SortField::Size || p.field == SortField::Time,
        None => false,
    }
}

/// What a listing is asked for, as it is typed.
pub struct TreeArgs {
    pub all_toggles: u8,
    pub no_expand_git_toggles: u8,
    pub max_depth: usize,
    pub trunc: usize,
    pub deep: bool,
    pub long_listing: bool,
    pub sizes: bool,
    pub times: bool,
    pub counts: bool,
    pub dirs_only: bool,
    pub classify: bool,
    pub hide_more_count: bool,
    pub follow_links: bool,
    pub git: bool,
    pub no_git: bool,
    pub color: OutputMode,
    pub hyperlink: OutputMode,
    pub sort: Option<Vec<String>>,
}

/// What a listing does.
#[derive(Clone, Copy, Debug, PartialEq, Eq, Structural)]
pub struct TreePlan {
    pub options: TreeOptions,
    pub show_all: bool,
    pub need_metadata: bool,
    /// Only sizes are asked for, and only one or two levels are shown.
    pub shallow: bool,
    /// How deep the scan goes.
    pub scan_max_depth: usize,
    pub use_git: bool,
    pub use_colors: bool,
    pub use_hyperlinks: bool,
}

/// What a listing does: `-l` asks for all columns, `--deep` for many levels with
/// few entries each. Hidden entries are shown where `-a` is given an odd number
/// of times, and `.git` is opened with them, unless an odd number of `-G` says
/// otherwise. A scan goes all the way where totals are asked for.
pub open spec fn plan_of(
    a: TreeArgs,
    sort: Option<SortPlan>,
    is_tty: bool,
    root_is_git: bool,
) -> TreePlan {
    let sizes = a.sizes || a.long_listing;
    let times = a.times || a.long_listing;
    let counts = a.counts || a.long_listing;
    let max_depth: usize = if a.deep {
        20
    } else {
        a.max_depth
    };
    let show_all = a.all_toggles % 2 == 1;
    let no_expand_git = if a.no_expand_git_toggles % 2 == 1 {
        show_all
    } else {
        !show_all
    };
    let shallow = sizes && !counts && !times && (max_depth == 1 || max_depth == 2);
    TreePlan {
        options: TreeOptions {
            max_depth,
            trunc: if a.deep {
                2
            } else {
                a.trunc
            },
            dirs_only: a.dirs_only,
            sizes,
            times,
            counts,
            classify: a.classify,
            hide_more_count: a.hide_more_count,
            no_expand_git,
            sort,
        },
        show_all,
        need_metadata: sizes || times || a.follow_links || a.color != OutputMode::Never
            || sort_needs_metadata(sort),
        shallow,
        scan_max_depth: if no_expand_git && root_is_git {
            0
        } else if sizes || counts {
            usize::MAX
        } else {
            max_depth
        },
        use_git: a.git && !a.no_git,
        use_colors: a.color == OutputMode::Always || (a.color == OutputMode::Auto && is_tty),
        use_hyperlinks: a.hyperlink == OutputMode::Always || (a.hyperlink == OutputMode::Auto
            && is_tty),
    }
}

/// Settles what a listing does. `root_is_git` tells whether the root is named
/// `.git`.
pub fn tree_plan(a: &TreeArgs, is_tty: bool, root_is_git: bool) -> (r: Result<TreePlan, SortError>)
    ensures
        match *(&a.sort) {
            None => r == Ok::<TreePlan, SortError>(plan_of(*a, None, is_tty, root_is_git)),
            Some(v) => if v@.len() != 2 {
                r == Err::<TreePlan, SortError>(SortError::Arity)
            } else {
                match (field_named(v@[0]@), direction_named(v@[1]@)) {
                    (Some(field), Some(descending)) => r == Ok::<TreePlan, SortError>(
                        plan_of(*a, Some(SortPlan { field, descending }), is_tty, root_is_git),
                    ),
                    (None, _) => r is Err && r->Err_0 is Field && r->Err_0->Field_0@ == v@[0]@,
                    (Some(_), None) => r is Err && r->Err_0 is Direction && r->Err_0->Direction_0@
                        == v@[1]@,
                }
            },
        },
{
    let sort = match validate_sort(&a.sort) {
        Ok(s) => s,
        Err(e) => {
            return Err(e);
        },
    };
    let sizes = a.sizes || a.long_listing;
    let times = a.times || a.long_listing;
    let counts = a.counts || a.long_listing;
    let max_depth: usize = if a.deep {
        20
    } else {
        a.max_depth
    };
    let trunc: usize = if a.deep {
        2
    } else {
        a.trunc
    };
    let show_all = a.all_toggles % 2 == 1;
    let no_expand_git = if a.no_expand_git_toggles % 2 == 1 {
        show_all
    } else {
        !show_all
    };
    let by_fact = match sort {
        Some(p) => match p.field {
            SortField::Size => true,
            SortField::Time => true,
            _ => false,
        },
        None => false,
    };
    let colored = match a.color {
        OutputMode::Never => false,
        _ => true,
    };
    let scan_max_depth: usize = if no_expand_git && root_is_git {
        0
    } else if sizes || counts {
        usize::MAX
    } else {
        max_depth
    };
    Ok(
        TreePlan {
            options: TreeOptions {
                max_depth,
                trunc,
                dirs_only: a.dirs_only,
                sizes,
                times,
                counts,
                classify: a.classify,
                hide_more_count: a.hide_more_count,
                no_expand_git,
                sort,
            },
            show_all,
            need_metadata: sizes || times || a.follow_links || colored || by_fact,
            shallow: sizes && !counts && !times && (max_depth == 1 || max_depth == 2),
            scan_max_depth,
            use_git: a.git && !a.no_git,
            use_colors: output_mode_enabled(a.color, is_tty),
            use_hyperlinks: output_mode_enabled(a.hyperlink, is_tty),
        },
    )
}

/// Giving `-a` or `-G` twice more changes nothing.
pub proof fn law_toggles_cancel(a: TreeArgs, sort: Option<SortPlan>, is_tty: bool, root_is_git: bool)
    requires
        a.all_toggles <= 253,
        a.no_expand_git_toggles <= 253,
    ensures
        plan_of(
            (TreeArgs { all_toggles: (a.all_toggles + 2) as u8, ..a }),
            sort,
            is_tty,
            root_is_git,
        ) == plan_of(a, sort, is_tty, root_is_git),
        plan_of(
            (TreeArgs { no_expand_git_toggles: (a.no_expand_git_toggles + 2) as u8, ..a }),
            sort,
            is_tty,
            root_is_git,
        ) == plan_of(a, sort, is_tty, root_is_git),
{
}

/// What a word of the command line is.
pub enum ArgKind {
    /// Ends the options.
    DoubleDash,
    /// An option with this many words behind it.
    Option(nat),
    Positional,
}

/// What a word of the command line is, before a double dash.
pub open spec fn arg_kind(arg: Seq<char>) -> ArgKind {
    if arg == "--"@ {
        ArgKind::DoubleDash
    } else if arg == "-L"@ || arg == "--max-depth"@ || arg == "-T"@ || arg == "--trunc"@ || arg
        == "-j"@ || arg == "--threads"@ {
        ArgKind::Option(1)
    } else if arg == "--sort"@ {
        ArgKind::Option(2)
    } else if text::begins(arg, "-"@) {
        ArgKind::Option(0)
    } else {
        ArgKind::Positional
    }
}

/// A word that stands for itself.
pub struct Positional {
    pub at: int,
    /// It is a number before any double dash.
    pub number: bool,
}

/// The words that stand for themselves, from word `i` on.
pub open spec fn positionals(args: Seq<Seq<char>>, i: int, after: bool) -> Seq<Positional>
    decreases
            (if i < args.len() {
                args.len() - i
            } else {
                0
            }),
{
    if i < 0 || i >= args.len() {
        Seq::empty()
    } else if after {
        seq![Positional { at: i, number: false }] + positionals(args, i + 1, true)
    } else {
        match arg_kind(args[i]) {
            ArgKind::DoubleDash => positionals(args, i + 1, true),
            ArgKind::Option(n) => positionals(args, i + 1 + n, false),
            ArgKind::Positional => seq![
                Positional { at: i, number: args[i].len() > 0 && text::all_digits(args[i]) },
            ] + positionals(args, i + 1, false),
        }
    }
}

/// The word that is a depth: the only one that stands for itself, if it is a
/// number. The first word is the program.
pub open spec fn shorthand_of(args: Seq<Seq<char>>) -> Option<int> {
    let p = positionals(args, 1, false);
    if p.len() == 1 && p[0].number {
        Some(p[0].at)
    } else {
        None
    }
}

fn takes_words(arg: &[char]) -> (r: usize)
    ensures
        !(arg_kind(arg@) is Positional) && !(arg_kind(arg@) is DoubleDash) ==> arg_kind(arg@)
            == ArgKind::Option(r as nat),
        r <= 2,
{
    if text::is_text(arg, "-L") || text::is_text(arg, "--max-depth") || text::is_text(arg, "-T")
        || text::is_text(arg, "--trunc") || text::is_text(arg, "-j") || text::is_text(
        arg,
        "--threads",
    ) {
        1
    } else if text::is_text(arg, "--sort") {
        2
    } else {
        0
    }
}

proof fn lemma_option_words_begin_with_a_dash()
    ensures
        text::begins("-L"@, "-"@),
        text::begins("--max-depth"@, "-"@),
        text::begins("-T"@, "-"@),
        text::begins("--trunc"@, "-"@),
        text::begins("-j"@, "-"@),
        text::begins("--threads"@, "-"@),
        text::begins("--sort"@, "-"@),
{
    reveal_strlit("-");
    reveal_strlit("-L");
    reveal_strlit("--max-depth");
    reveal_strlit("-T");
    reveal_strlit("--trunc");
    reveal_strlit("-j");
    reveal_strlit("--threads");
    reveal_strlit("--sort");
    assert("-L"@.take(1) == "-"@);
    assert("--max-depth"@.take(1) == "-"@);
    assert("-T"@.take(1) == "-"@);
    assert("--trunc"@.take(1) == "-"@);
    assert("-j"@.take(1) == "-"@);
    assert("--threads"@.take(1) == "-"@);
    assert("--sort"@.take(1) == "-"@);
}

fn is_number(arg: &[char]) -> (r: bool)
    ensures
        r == (arg@.len() > 0 && text::all_digits(arg@)),
{
    let mut i: usize = 0;
    while i < arg.len()
        invariant
            i <= arg@.len(),
            forall|k: int| 0 <= k < i ==> text::is_digit(#[trigger] arg@[k]),
        decreases arg@.len() - i,
    {
        if !text::digit(arg[i]) {
            return false;
        }
        i = i + 1;
    }
    arg.len() > 0
}

/// Finds the word of a command line that is a depth.
pub fn depth_shorthand(args: &Vec<String>) -> (r: Option<usize>)
    ensures
        match shorthand_of(text::texts(args@)) {
            Some(i) => r == Some(i as usize) && 0 < i < args@.len(),
            None => r is None,
        },
{
    let ghost all = text::texts(args@);
    let mut count: usize = 0;
    let mut only: usize = 0;
    let mut number = false;
    let mut after = false;
    let mut i: usize = 1;
    let ghost mut seen: Seq<Positional> = Seq::empty();
    assert(seen + positionals(all, 1, false) == positionals(all, 1, false));
    proof {
        lemma_option_words_begin_with_a_dash();
    }
    while i < args.len()
        invariant
            1 <= i,
            all == text::texts(args@),
            all.len() == args@.len(),
            text::begins("-L"@, "-"@),
            text::begins("--max-depth"@, "-"@),
            text::begins("-T"@, "-"@),
            text::begins("--trunc"@, "-"@),
            text::begins("-j"@, "-"@),
            text::begins("--threads"@, "-"@),
            text::begins("--sort"@, "-"@),
            seen + positionals(all, i as int, after) == positionals(all, 1, false),
            seen.len() == count,
            count <= i,
            count >= 1 ==> seen[count - 1] == (Positional { at: only as int, number }),
            count >= 1 ==> 0 < only < args@.len(),
        decreases args@.len() - i,
    {
        let arg = text::to_chars(args[i].as_str());
        assert(all[i as int] == arg@);
        let ghost rest = positionals(all, i as int, after);
        if !after {
            if text::is_text(arg.as_slice(), "--") {
                after = true;
                i = i + 1;
                continue;
            }
            if text::begins_with(arg.as_slice(), text::to_chars("-").as_slice()) {
                let n: usize = takes_words(arg.as_slice());
                assert(rest == positionals(all, i + 1 + n, false));
                if args.len() - i <= 1 + n {
                    assert(rest == Seq::<Positional>::empty());
                    i = args.len();
                } else {
                    i = i + 1 + n;
                }
                continue;
            }
        }
        let here = !after && is_number(arg.as_slice());
        proof {
            let p = Positional { at: i as int, number: here };
            assert(rest == seq![p] + positionals(all, i + 1, after));
            assert(seen + rest == seen.push(p) + positionals(all, i + 1, after));
            seen = seen.push(p);
        }
        number = here;
        only = i;
        count = count + 1;
        i = i + 1;
    }
    assert(seen == positionals(all, 1, false));
    if count == 1 && number {
        Some(only)
    } else {
        None
    }
}

/// The widths of the two counts of a row.
#[derive(Clone, Copy, Debug, PartialEq, Eq, Structural)]
pub struct CountColumnLayout {
    pub dir_width: usize,
    pub file_width: usize,
}

/// The columns of both counts with their letters.
pub open spec fn pair_columns(l: CountColumnLayout) -> int {
    l.dir_width + 1 + 1 + l.file_width + 1
}

impl CountColumnLayout {
    /// Finds the columns of both counts with their letters.
    pub fn pair_width(self) -> (r: usize)
        requires
            pair_columns(self) <= usize::MAX,
        ensures
            r == pair_columns(self),
    {
        self.dir_width + 1 + 1 + self.file_width + 1
    }
}

/// The larger of two widths.
pub open spec fn wider(a: nat, b: nat) -> nat {
    if a >= b {
        a
    } else {
        b
    }
}

/// Whether a node has a row on what is left out.
pub open spec fn counts_rest(node: Node, o: TreeOptions) -> bool {
    node.total_children_count > node.children@.len() && !o.hide_more_count && (!o.dirs_only
        || node.omitted_dirs_count > 0)
}

/// The width of the counts of the first `n` children of a node, and of all below
/// them: of directories, or else of files.
pub open spec fn child_width(node: Node, o: TreeOptions, dirs: bool, n: int) -> nat
    decreases node, 0int, n,
{
    if n <= 0 || n > node.children@.len() {
        1
    } else {
        let c = node.children@[n - 1];
        let own = if dirs {
            c.labels.dirs@.len()
        } else {
            c.labels.files@.len()
        };
        let before = wider(child_width(node, o, dirs, n - 1), own);
        if c.is_dir {
            wider(before, count_width(c, o, dirs))
        } else {
            before
        }
    }
}

/// The width of the counts below a node.
pub open spec fn count_width(node: Node, o: TreeOptions, dirs: bool) -> nat
    decreases node, 1int, 0int,
{
    let w = child_width(node, o, dirs, node.children@.len() as int);
    if counts_rest(node, o) {
        wider(
            w,
            if dirs {
                node.labels.omitted_dirs@.len()
            } else {
                node.labels.omitted_files@.len()
            },
        )
    } else {
        w
    }
}

fn label_width(label: &String) -> (r: usize)
    ensures
        r == label@.len(),
{
    text::to_chars(label.as_str()).len()
}

/// Finds the widths of the counts below a node.
pub fn compute_count_column_layout(node: &Node, o: TreeOptions) -> (r: CountColumnLayout)
    ensures
        r.dir_width == count_width(*node, o, true),
        r.file_width == count_width(*node, o, false),
    decreases node,
{
    let mut dir_width: usize = 1;
    let mut file_width: usize = 1;
    let mut i: usize = 0;
    while i < node.children.len()
        invariant
            i <= node.children@.len(),
            dir_width == child_width(*node, o, true, i as int),
            file_width == child_width(*node, o, false, i as int),
        decreases node.children@.len() - i,
    {
        let c = &node.children[i];
        let a: usize = label_width(&c.labels.dirs);
        let b: usize = label_width(&c.labels.files);
        if a > dir_width {
            dir_width = a;
        }
        if b > file_width {
            file_width = b;
        }
        if c.is_dir {
            assert(decreases_to!(node => node.children@[i as int]));
            let below = compute_count_column_layout(c, o);
            if below.dir_width > dir_width {
                dir_width = below.dir_width;
            }
            if below.file_width > file_width {
                file_width = below.file_width;
            }
        }
        i = i + 1;
    }
    if node.total_children_count > node.children.len() && !o.hide_more_count && (!o.dirs_only
        || node.omitted_dirs_count > 0) {
        let a: usize = label_width(&node.labels.omitted_dirs);
        let b: usize = label_width(&node.labels.omitted_files);
        if a > dir_width {
            dir_width = a;
        }
        if b > file_width {
            file_width = b;
        }
    }
    CountColumnLayout { dir_width, file_width }
}

/// What the rows of a listing show.
#[derive(Clone, Copy, Debug, PartialEq, Eq, Structural)]
pub struct RowStyle {
    pub sizes: bool,
    pub times: bool,
    pub counts: bool,
    pub git: bool,
    pub colors: bool,
    pub hide_more_count: bool,
    pub layout: CountColumnLayout,
}

/// A text in a color, where there are colors.
pub open spec fn painted(t: Seq<char>, color: Seq<char>, colors: bool) -> Seq<char> {
    if colors {
        color + t + "\x1b[0m"@
    } else {
        t
    }
}

fn paint(t: &str, color: &str, colors: bool) -> (r: String)
    ensures
        r@ == painted(t@, color@, colors),
{
    if colors {
        let mut out = text::copy(color);
        out.push_str(t);
        out.push_str("\x1b[0m");
        out
    } else {
        text::copy(t)
    }
}

/// So many spaces.
pub open spec fn spaces(n: int) -> Seq<char> {
    Seq::new(
        (if n > 0 {
            n
        } else {
            0
        }) as nat,
        |i: int| ' ',
    )
}

/// One count with its letter, padded to its column.
pub open spec fn count_text(count: Seq<char>, letter: Seq<char>, width: int, colors: bool) -> Seq<char> {
    painted(count, "\x1b[1;33m"@, colors) + letter + spaces(width - count.len()) + " "@
}

/// The counts of a row.
pub open spec fn count_pair(dirs: Seq<char>, files: Seq<char>, l: CountColumnLayout, colors: bool) -> Seq<
    char,
> {
    count_text(dirs, "d"@, l.dir_width as int, colors) + count_text(
        files,
        "f"@,
        l.file_width as int,
        colors,
    )
}

fn push_count(out: &mut String, count: &str, letter: &str, width: usize, colors: bool)
    ensures
        final(out)@ == old(out)@ + count_text(count@, letter@, width as int, colors),
{
    let ghost start = out@;
    out.push_str(paint(count, "\x1b[1;33m", colors).as_str());
    out.push_str(letter);
    let n: usize = text::to_chars(count).len();
    if width > n {
        tree_git::push_spaces(out, width - n);
    }
    out.push_str(" ");
    assert(out@ == start + count_text(count@, letter@, width as int, colors));
}

/// Writes the counts of a row.
pub fn write_recursive_count_pair(dirs: &str, files: &str, l: CountColumnLayout, colors: bool) -> (r:
    String)
    ensures
        r@ == count_pair(dirs@, files@, l, colors),
{
    let mut out = String::new();
    push_count(&mut out, dirs, "d", l.dir_width, colors);
    push_count(&mut out, files, "f", l.file_width, colors);
    assert(out@ == count_pair(dirs@, files@, l, colors));
    out
}

/// What a row shows before the name.
pub struct RowTexts {
    pub size: Seq<char>,
    pub time: Option<Seq<char>>,
    pub dirs: Seq<char>,
    pub files: Seq<char>,
    pub git: Option<Seq<char>>,
}

/// The columns of a row. A row without a time has its column blank.
pub open spec fn columns_text(t: RowTexts, s: RowStyle) -> Seq<char> {
    (if s.sizes {
        painted(tree_git::padded_left(t.size, 7), "\x1b[1;36m"@, s.colors) + " "@
    } else {
        Seq::empty()
    }) + (if s.times {
        match t.time {
            Some(time) => painted(tree_git::padded_left(time, 16), "\x1b[37m"@, s.colors) + " "@,
            None => spaces(17),
        }
    } else {
        Seq::empty()
    }) + (if s.counts {
        count_pair(t.dirs, t.files, s.layout, s.colors)
    } else {
        Seq::empty()
    }) + (if s.git {
        tree_git::status_column(t.git)
    } else {
        Seq::empty()
    })
}

struct RowInput<'a> {
    size: &'a str,
    time: Option<&'a str>,
    dirs: &'a str,
    files: &'a str,
    git: Option<&'a str>,
}

impl<'a> RowInput<'a> {
    spec fn model(&self) -> RowTexts {
        RowTexts {
            size: self.size@,
            time: match self.time {
                Some(t) => Some(t@),
                None => None,
            },
            dirs: self.dirs@,
            files: self.files@,
            git: match self.git {
                Some(t) => Some(t@),
                None => None,
            },
        }
    }
}

fn write_columns(t: &RowInput, s: RowStyle) -> (r: String)
    ensures
        r@ == columns_text(t.model(), s),
{
    let mut out = String::new();
    if s.sizes {
        let size = tree_git::pad_left(t.size, 7);
        out.push_str(paint(size.as_str(), "\x1b[1;36m", s.colors).as_str());
        out.push_str(" ");
    }
    if s.times {
        match t.time {
            Some(time) => {
                let shown = tree_git::pad_left(time, 16);
                out.push_str(paint(shown.as_str(), "\x1b[37m", s.colors).as_str());
                out.push_str(" ");
            },
            None => {
                tree_git::push_spaces(&mut out, 17);
            },
        }
    }
    if s.counts {
        out.push_str(write_recursive_count_pair(t.dirs, t.files, s.layout, s.colors).as_str());
    }
    if s.git {
        out.push_str(tree_git::write_git_status(t.git).as_str());
    }
    assert(out@ == columns_text(t.model(), s));
    out
}

/// What stands before the connector: a line for each level that goes on.
pub open spec fn prefix_text(prefixes: Seq<bool>) -> Seq<char>
    decreases prefixes.len(),
{
    if prefixes.len() == 0 {
        Seq::empty()
    } else {
        prefix_text(prefixes.drop_last()) + (if prefixes.last() {
            "    "@
        } else {
            "│   "@
        })
    }
}

fn push_prefix(out: &mut String, prefixes: &Vec<bool>)
    ensures
        final(out)@ == old(out)@ + prefix_text(prefixes@),
{
    let ghost start = out@;
    let mut i: usize = 0;
    assert(prefixes@.take(0) == Seq::<bool>::empty());
    assert(start + prefix_text(prefixes@.take(0)) == start);
    while i < prefixes.len()
        invariant
            i <= prefixes@.len(),
            out@ == start + prefix_text(prefixes@.take(i as int)),
        decreases prefixes@.len() - i,
    {
        assert(prefixes@.take(i + 1).drop_last() == prefixes@.take(i as int));
        out.push_str(
            if prefixes[i] {
                "    "
            } else {
                "│   "
            },
        );
        assert(out@ == start + prefix_text(prefixes@.take(i + 1)));
        i = i + 1;
    }
    assert(prefixes@.take(prefixes@.len() as int) == prefixes@);
}

/// The line of a child.
pub open spec fn child_line(c: Node, prefixes: Seq<bool>, last: bool, s: RowStyle) -> Seq<char> {
    columns_text(
        RowTexts {
            size: c.labels.size@,
            time: Some(c.labels.time@),
            dirs: c.labels.dirs@,
            files: c.labels.files@,
            git: crate::paths::opt_text(c.git_status),
        },
        s,
    ) + prefix_text(prefixes) + (if last {
        "└── "@
    } else {
        "├── "@
    }) + c.labels.name@
}

/// A number of things that are left out.
pub open spec fn more_text(n: usize, one: Seq<char>, many: Seq<char>) -> Seq<char> {
    text::decimal(n as nat) + " more "@ + (if n == 1 {
        one
    } else {
        many
    })
}

/// What is said of what is left out of a node.
pub open spec fn rest_text(node: Node) -> Seq<char> {
    let dirs = more_text(node.omitted_dirs_count, "dir"@, "dirs"@);
    let files = more_text(node.omitted_files_count, "file"@, "files"@);
    if node.omitted_dirs_count > 0 && node.omitted_files_count > 0 {
        dirs + " "@ + files
    } else if node.omitted_dirs_count > 0 {
        dirs
    } else if node.omitted_files_count > 0 {
        files
    } else {
        text::decimal((node.total_children_count - node.children@.len()) as nat) + " more"@
    }
}

/// The line on what is left out of a node.
pub open spec fn rest_line(node: Node, prefixes: Seq<bool>, s: RowStyle) -> Seq<char> {
    columns_text(
        RowTexts {
            size: node.labels.omitted_size@,
            time: None,
            dirs: node.labels.omitted_dirs@,
            files: node.labels.omitted_files@,
            git: None,
        },
        s,
    ) + prefix_text(prefixes) + "└── ... and "@ + rest_text(node)
}

/// Whether child `i` is the last thing below its node.
pub open spec fn is_last_child(node: Node, i: int) -> bool {
    i == node.children@.len() - 1 && node.total_children_count <= node.children@.len()
}

/// The lines of the first `n` children of a node, with all below them.
pub open spec fn child_lines(node: Node, prefixes: Seq<bool>, s: RowStyle, n: int) -> Seq<Seq<char>>
    decreases node, 0int, n,
{
    if n <= 0 || n > node.children@.len() {
        Seq::empty()
    } else {
        let c = node.children@[n - 1];
        let last = is_last_child(node, n - 1);
        let lines = child_lines(node, prefixes, s, n - 1).push(child_line(c, prefixes, last, s));
        if c.is_dir {
            lines + node_lines(c, prefixes.push(last), s)
        } else {
            lines
        }
    }
}

/// The lines below a node.
pub open spec fn node_lines(node: Node, prefixes: Seq<bool>, s: RowStyle) -> Seq<Seq<char>>
    decreases node, 1int, 0int,
{
    let lines = child_lines(node, prefixes, s, node.children@.len() as int);
    if node.total_children_count > node.children@.len() && !s.hide_more_count {
        lines.push(rest_line(node, prefixes, s))
    } else {
        lines
    }
}

fn opt_str(s: &Option<String>) -> (r: Option<&str>)
    ensures
        (match r {
            Some(t) => Some(t@),
            None => None,
        }) == crate::paths::opt_text(*s),
{
    match s {
        Some(t) => Some(t.as_str()),
        None => None,
    }
}

fn write_child(c: &Node, prefixes: &Vec<bool>, last: bool, s: RowStyle) -> (r: String)
    ensures
        r@ == child_line(*c, prefixes@, last, s),
{
    let row = RowInput {
        size: c.labels.size.as_str(),
        time: Some(c.labels.time.as_str()),
        dirs: c.labels.dirs.as_str(),
        files: c.labels.files.as_str(),
        git: opt_str(&c.git_status),
    };
    let mut out = write_columns(&row, s);
    push_prefix(&mut out, prefixes);
    out.push_str(
        if last {
            "└── "
        } else {
            "├── "
        },
    );
    out.push_str(c.labels.name.as_str());
    out
}

fn push_more(out: &mut String, n: usize, one: &str, many: &str)
    ensures
        final(out)@ == old(out)@ + more_text(n, one@, many@),
{
    let ghost start = out@;
    let d = text::from_chars(text::number(n as u64).as_slice());
    out.push_str(d.as_str());
    out.push_str(" more ");
    out.push_str(
        if n == 1 {
            one
        } else {
            many
        },
    );
    assert(out@ == start + more_text(n, one@, many@));
}

fn write_rest(node: &Node, prefixes: &Vec<bool>, s: RowStyle) -> (r: String)
    requires
        node.total_children_count > node.children@.len(),
    ensures
        r@ == rest_line(*node, prefixes@, s),
{
    let row = RowInput {
        size: node.labels.omitted_size.as_str(),
        time: None,
        dirs: node.labels.omitted_dirs.as_str(),
        files: node.labels.omitted_files.as_str(),
        git: None,
    };
    let mut out = write_columns(&row, s);
    push_prefix(&mut out, prefixes);
    out.push_str("└── ... and ");
    let ghost lead = out@;
    if node.omitted_dirs_count > 0 {
        push_more(&mut out, node.omitted_dirs_count, "dir", "dirs");
        if node.omitted_files_count > 0 {
            out.push_str(" ");
            push_more(&mut out, node.omitted_files_count, "file", "files");
        }
    } else if node.omitted_files_count > 0 {
        push_more(&mut out, node.omitted_files_count, "file", "files");
    } else {
        let n: usize = node.total_children_count - node.children.len();
        let d = text::from_chars(text::number(n as u64).as_slice());
        out.push_str(d.as_str());
        out.push_str(" more");
    }
    assert(out@ == lead + rest_text(*node));
    out
}

fn copy_prefixes(prefixes: &Vec<bool>, last: bool) -> (r: Vec<bool>)
    ensures
        r@ == prefixes@.push(last),
{
    let mut out: Vec<bool> = Vec::new();
    let mut i: usize = 0;
    while i < prefixes.len()
        invariant
            i <= prefixes@.len(),
            out@ == prefixes@.take(i as int),
        decreases prefixes@.len() - i,
    {
        out.push(prefixes[i]);
        assert(out@ == prefixes@.take(i + 1));
        i = i + 1;
    }
    out.push(last);
    assert(out@ == prefixes@.push(last));
    out
}

/// Writes the lines below a node.
pub fn print_node(node: &Node, prefixes: &Vec<bool>, s: RowStyle, out: &mut Vec<String>)
    ensures
        text::texts(final(out)@) == text::texts(old(out)@) + node_lines(*node, prefixes@, s),
    decreases node,
{
    let ghost start = text::texts(out@);
    let mut i: usize = 0;
    assert(start + child_lines(*node, prefixes@, s, 0) == start);
    while i < node.children.len()
        invariant
            i <= node.children@.len(),
            text::texts(out@) == start + child_lines(*node, prefixes@, s, i as int),
        decreases node.children@.len() - i,
    {
        let c = &node.children[i];
        let last = i == node.children.len() - 1 && node.total_children_count
            <= node.children.len();
        let ghost before = text::texts(out@);
        let ghost head = child_lines(*node, prefixes@, s, i as int);
        let line = write_child(c, prefixes, last, s);
        out.push(line);
        assert(text::texts(out@) == before.push(line@));
        assert(text::texts(out@) == start + head.push(line@));
        if c.is_dir {
            let below = copy_prefixes(prefixes, last);
            assert(decreases_to!(node => node.children@[i as int]));
            print_node(c, &below, s, out);
            assert(text::texts(out@) == start + (head.push(line@) + node_lines(
                *c,
                prefixes@.push(last),
                s,
            )));
        }
        assert(text::texts(out@) == start + child_lines(*node, prefixes@, s, i + 1));
        i = i + 1;
    }
    if node.total_children_count > node.children.len() && !s.hide_more_count {
        let ghost before = text::texts(out@);
        let line = write_rest(node, prefixes, s);
        out.push(line);
        assert(text::texts(out@) == before.push(line@));
    }
    assert(text::texts(out@) == start + node_lines(*node, prefixes@, s));
}

/// The first line of a listing. The size is that of the root, and its label is
/// given.
pub open spec fn root_text(size: Seq<char>, git: Option<Seq<char>>, label: Seq<char>, s: RowStyle) -> Seq<
    char,
> {
    (if s.counts {
        spaces(pair_columns(s.layout) + 1)
    } else {
        Seq::empty()
    }) + (if s.git {
        tree_git::status_column(git)
    } else {
        Seq::empty()
    }) + (if s.sizes {
        painted(tree_git::padded_left(size, 7), "\x1b[1;36m"@, s.colors) + " "@
    } else {
        Seq::empty()
    }) + (if s.times {
        spaces(17)
    } else {
        Seq::empty()
    }) + label
}

/// Writes the first line of a listing.
pub fn root_line(size: &str, git: Option<&str>, label: &str, s: RowStyle) -> (r: String)
    requires
        pair_columns(s.layout) < usize::MAX,
    ensures
        r@ == root_text(
            size@,
            match git {
                Some(g) => Some(g@),
                None => None,
            },
            label@,
            s,
        ),
{
    let mut out = String::new();
    if s.counts {
        let n: usize = s.layout.pair_width() + 1;
        tree_git::push_spaces(&mut out, n);
    }
    if s.git {
        out.push_str(tree_git::write_git_status(git).as_str());
    }
    if s.sizes {
        let shown = tree_git::pad_left(size, 7);
        out.push_str(paint(shown.as_str(), "\x1b[1;36m", s.colors).as_str());
        out.push_str(" ");
    }
    if s.times {
        tree_git::push_spaces(&mut out, 17);
    }
    out.push_str(label);
    assert(out@ == root_text(
        size@,
        match git {
            Some(g) => Some(g@),
            None => None,
        },
        label@,
        s,
    ));
    out
}

/// The paths of the first `n` children of a node and of all below them that are
/// shown: of the directories, or else of all others.
pub open spec fn child_paths(node: Node, dirs: bool, n: int) -> Seq<Seq<char>>
    decreases node, 0int, n,
{
    if n <= 0 || n > node.children@.len() {
        Seq::empty()
    } else {
        let c = node.children@[n - 1];
        let before = child_paths(node, dirs, n - 1);
        let with = if c.is_dir == dirs {
            before.push(c.path@)
        } else {
            before
        };
        if c.is_dir {
            with + shown_paths_of(c, dirs)
        } else {
            with
        }
    }
}

/// The paths below a node that are shown.
pub open spec fn shown_paths_of(node: Node, dirs: bool) -> Seq<Seq<char>>
    decreases node, 1int, 0int,
{
    child_paths(node, dirs, node.children@.len() as int)
}

/// Lists the paths below a node that are shown: those of the directories, or else
/// those of all others.
pub fn shown_paths(node: &Node, dirs: bool, out: &mut Vec<String>)
    ensures
        text::texts(final(out)@) == text::texts(old(out)@) + shown_paths_of(*node, dirs),
    decreases node,
{
    let ghost start = text::texts(out@);
    let mut i: usize = 0;
    assert(start + child_paths(*node, dirs, 0) == start);
    while i < node.children.len()
        invariant
            i <= node.children@.len(),
            text::texts(out@) == start + child_paths(*node, dirs, i as int),
        decreases node.children@.len() - i,
    {
        let c = &node.children[i];
        let ghost head = child_paths(*node, dirs, i as int);
        let ghost before = text::texts(out@);
        if c.is_dir == dirs {
            out.push(c.path.clone());
            assert(text::texts(out@) == before.push(c.path@));
            assert(text::texts(out@) == start + head.push(c.path@));
        }
        let ghost with = if c.is_dir == dirs {
            head.push(c.path@)
        } else {
            head
        };
        if c.is_dir {
            assert(decreases_to!(node => node.children@[i as int]));
            shown_paths(c, dirs, out);
            assert(text::texts(out@) == start + (with + shown_paths_of(*c, dirs)));
        }
        assert(text::texts(out@) == start + child_paths(*node, dirs, i + 1));
        i = i + 1;
    }
}

/// Whether a mode lets somebody run the file.
pub open spec fn runs(mode: u32) -> bool {
    mode & 0o111 != 0
}

/// Whether a mode lets somebody run the file.
pub fn is_executable(mode: u32) -> (r: bool)
    ensures
        r == runs(mode),
{
    mode & 0o111 != 0
}

/// A name with a mark for what it is, where that is asked for.
pub open spec fn marked_name(
    name: Seq<char>,
    classify: bool,
    is_symlink: bool,
    is_dir: bool,
    is_exec: bool,
) -> Seq<char> {
    if !classify {
        name
    } else if is_symlink {
        name.push('@')
    } else if is_dir {
        name.push('/')
    } else if is_exec {
        name.push('*')
    } else {
        name
    }
}

/// Marks a name for what it is.
pub fn display_name(name: &str, classify: bool, is_symlink: bool, is_dir: bool, is_exec: bool) -> (r:
    String)
    ensures
        r@ == marked_name(name@, classify, is_symlink, is_dir, is_exec),
{
    let mut out = text::copy(name);
    if classify {
        if is_symlink {
            out.push('@');
        } else if is_dir {
            out.push('/');
        } else if is_exec {
            out.push('*');
        }
    }
    out
}

/// What is done always is done, what is never is not, and the rest in a terminal only.
pub proof fn law_automatic_means_in_a_terminal(is_tty: bool)
    ensures
        is_enabled(OutputMode::Always, is_tty),
        !is_enabled(OutputMode::Never, is_tty),
        is_enabled(OutputMode::Auto, is_tty) <==> is_tty,
{
}

/// The case of a word makes no difference to the order that it asks for.
pub proof fn law_the_case_of_words_makes_no_difference(a: Seq<char>, b: Seq<char>)
    requires
        text::lower(a) == text::lower(b),
    ensures
        field_named(a) == field_named(b),
        direction_named(a) == direction_named(b),
{
}

/// A long listing has all columns; a deep one twenty levels with two entries each. Hidden
/// entries are shown where that is asked for an odd number of times, and `.git` is then
/// opened, unless that is turned round. A scan goes all the way for totals.
pub proof fn law_what_a_listing_does(
    a: TreeArgs,
    sort: Option<SortPlan>,
    is_tty: bool,
    root_is_git: bool,
)
    ensures
        ({
            let p = plan_of(a, sort, is_tty, root_is_git);
            &&& p.options.sizes <==> a.sizes || a.long_listing
            &&& p.options.times <==> a.times || a.long_listing
            &&& p.options.counts <==> a.counts || a.long_listing
            &&& a.deep ==> p.options.max_depth == 20 && p.options.trunc == 2
            &&& !a.deep ==> p.options.max_depth == a.max_depth && p.options.trunc == a.trunc
            &&& p.options.dirs_only == a.dirs_only && p.options.classify == a.classify
                && p.options.hide_more_count == a.hide_more_count && p.options.sort == sort
            &&& p.show_all <==> a.all_toggles % 2 == 1
            &&& a.no_expand_git_toggles % 2 == 0 ==> (p.options.no_expand_git <==> !p.show_all)
            &&& a.no_expand_git_toggles % 2 == 1 ==> (p.options.no_expand_git <==> p.show_all)
            &&& p.use_git <==> a.git && !a.no_git
            &&& p.shallow <==> p.options.sizes && !p.options.counts && !p.options.times && (
            p.options.max_depth == 1 || p.options.max_depth == 2)
            &&& p.options.no_expand_git && root_is_git ==> p.scan_max_depth == 0
            &&& !(p.options.no_expand_git && root_is_git) && (p.options.sizes || p.options.counts)
                ==> p.scan_max_depth == usize::MAX
            &&& !(p.options.no_expand_git && root_is_git) && !p.options.sizes && !p.options.counts
                ==> p.scan_max_depth == p.options.max_depth
            &&& p.options.sizes || p.options.times || a.follow_links ==> p.need_metadata
            &&& (sort matches Some(s) && (s.field is Size || s.field is Time)) ==> p.need_metadata
            &&& (a.color is Never && !p.options.sizes && !p.options.times && !a.follow_links
                && sort is None) ==> !p.need_metadata
            &&& a.color is Never ==> !p.use_colors
            &&& a.color is Always ==> p.use_colors
            &&& a.color is Auto ==> (p.use_colors <==> is_tty)
            &&& a.hyperlink is Auto ==> (p.use_hyperlinks <==> is_tty)
        }),
{
}

/// Behind a double dash every word stands for itself, and none of them is a number.
pub proof fn law_a_double_dash_ends_the_options(args: Seq<Seq<char>>, i: int)
    requires
        0 <= i <= args.len(),
    ensures
        positionals(args, i, true) == Seq::new(
            (args.len() - i) as nat,
            |k: int| Positional { at: i + k, number: false },
        ),
    decreases args.len() - i,
{
    let all = Seq::new(
        (args.len() - i) as nat,
        |k: int| Positional { at: i + k, number: false },
    );
    if i < args.len() {
        law_a_double_dash_ends_the_options(args, i + 1);
        let rest = Seq::new(
            (args.len() - (i + 1)) as nat,
            |k: int| Positional { at: i + 1 + k, number: false },
        );
        assert(seq![Positional { at: i, number: false }] + rest =~= all);
    } else {
        assert(positionals(args, i, true) =~= all);
    }
}

/// A word is a depth only where it is a number, stands for itself and is the only one that
/// does.
pub proof fn law_a_depth_is_the_only_word(args: Seq<Seq<char>>, w: Seq<char>)
    requires
        w.len() > 0,
        text::all_digits(w),
        args.len() == 2,
        args[1] == w,
    ensures
        shorthand_of(args) == Some(1int),
        shorthand_of(args.push(w)) is None,
{
    reveal_strlit("-");
    reveal_strlit("--");
    reveal_strlit("-L");
    reveal_strlit("--max-depth");
    reveal_strlit("-T");
    reveal_strlit("--trunc");
    reveal_strlit("-j");
    reveal_strlit("--threads");
    reveal_strlit("--sort");
    assert(text::is_digit(w[0]));
    assert(w[0] != '-');
    if text::begins(w, "-"@) {
        assert(w.take(1)[0] == '-');
    }
    assert(arg_kind(w) is Positional) by {
        assert("--"@[0] == '-' && "-L"@[0] == '-' && "--max-depth"@[0] == '-' && "-T"@[0] == '-'
            && "--trunc"@[0] == '-' && "-j"@[0] == '-' && "--threads"@[0] == '-' && "--sort"@[0]
            == '-');
    }
    assert(positionals(args, 2, false) =~= Seq::empty());
    assert(positionals(args, 1, false) =~= seq![Positional { at: 1, number: true }]);
    let more = args.push(w);
    assert(more[1] == w && more[2] == w);
    assert(positionals(more, 3, false) =~= Seq::empty());
    assert(positionals(more, 2, false) =~= seq![Positional { at: 2, number: true }]);
    assert(positionals(more, 1, false).len() == 2);
}

/// The columns of counts are wide enough for every child of a node.
pub proof fn law_count_columns_are_wide_enough(node: Node, o: TreeOptions, i: int)
    requires
        0 <= i < node.children@.len(),
    ensures
        count_width(node, o, true) >= node.children@[i].labels.dirs@.len(),
        count_width(node, o, false) >= node.children@[i].labels.files@.len(),
        node.children@[i].is_dir ==> count_width(node, o, true) >= count_width(
            node.children@[i],
            o,
            true,
        ),
        node.children@[i].is_dir ==> count_width(node, o, false) >= count_width(
            node.children@[i],
            o,
            false,
        ),
{
    lemma_child_width(node, o, true, node.children@.len() as int, i);
    lemma_child_width(node, o, false, node.children@.len() as int, i);
}

proof fn lemma_child_width(node: Node, o: TreeOptions, dirs: bool, n: int, i: int)
    requires
        0 <= i < n <= node.children@.len(),
    ensures
        child_width(node, o, dirs, n) >= (if dirs {
            node.children@[i].labels.dirs@.len()
        } else {
            node.children@[i].labels.files@.len()
        }),
        node.children@[i].is_dir ==> child_width(node, o, dirs, n) >= count_width(
            node.children@[i],
            o,
            dirs,
        ),
    decreases n,
{
    if i < n - 1 {
        lemma_child_width(node, o, dirs, n - 1, i);
    }
}

/// Every child of a node has its line, and only the last thing below a node has the corner
/// that ends a branch.
pub proof fn law_every_child_has_its_line(node: Node, prefixes: Seq<bool>, s: RowStyle, i: int)
    requires
        0 <= i < node.children@.len(),
    ensures
        node_lines(node, prefixes, s).contains(
            child_line(
                node.children@[i],
                prefixes,
                i == node.children@.len() - 1 && node.total_children_count
                    <= node.children@.len(),
                s,
            ),
        ),
{
    let line = child_line(node.children@[i], prefixes, is_last_child(node, i), s);
    let k = lemma_child_listed(node, prefixes, s, node.children@.len() as int, i);
    assert(node_lines(node, prefixes, s)[k] == line);
}

proof fn lemma_child_listed(node: Node, prefixes: Seq<bool>, s: RowStyle, n: int, i: int) -> (k: int)
    requires
        0 <= i < n <= node.children@.len(),
    ensures
        0 <= k < child_lines(node, prefixes, s, n).len(),
        child_lines(node, prefixes, s, n)[k] == child_line(
            node.children@[i],
            prefixes,
            is_last_child(node, i),
            s,
        ),
    decreases n,
{
    let before = child_lines(node, prefixes, s, n - 1);
    if i == n - 1 {
        before.len() as int
    } else {
        lemma_child_listed(node, prefixes, s, n - 1, i)
    }
}

/// A node has a line on what is left out exactly where something is and that is to be told;
/// it is the last one.
pub proof fn law_what_is_left_out_is_told_last(node: Node, prefixes: Seq<bool>, s: RowStyle)
    ensures
        node.total_children_count > node.children@.len() && !s.hide_more_count ==> node_lines(
            node,
            prefixes,
            s,
        ).last() == rest_line(node, prefixes, s),
        node.total_children_count == 0 && node.children@.len() == 0 ==> node_lines(
            node,
            prefixes,
            s,
        ).len() == 0,
{
}

/// What is left out is told by its kinds, one in the singular.
pub proof fn law_the_rest_is_told_by_kind(node: Node)
    ensures
        node.omitted_dirs_count == 1 && node.omitted_files_count == 0 ==> rest_text(node)
            == text::decimal(1) + " more "@ + "dir"@,
        node.omitted_dirs_count > 1 && node.omitted_files_count == 0 ==> rest_text(node)
            == text::decimal(node.omitted_dirs_count as nat) + " more "@ + "dirs"@,
        node.omitted_dirs_count == 0 && node.omitted_files_count == 1 ==> rest_text(node)
            == text::decimal(1) + " more "@ + "file"@,
        node.omitted_dirs_count == 0 && node.omitted_files_count > 1 ==> rest_text(node)
            == text::decimal(node.omitted_files_count as nat) + " more "@ + "files"@,
        node.omitted_dirs_count > 1 && node.omitted_files_count > 1 ==> rest_text(node) == (
        text::decimal(node.omitted_dirs_count as nat) + " more "@ + "dirs"@) + " "@ + (
        text::decimal(node.omitted_files_count as nat) + " more "@ + "files"@),
{
}

/// Every shown child is listed by its path, a directory among the directories and anything
/// else among the rest, and so is all that is shown below it.
pub proof fn law_shown_paths_are_listed(node: Node, dirs: bool, i: int)
    requires
        0 <= i < node.children@.len(),
    ensures
        node.children@[i].is_dir == dirs ==> shown_paths_of(node, dirs).contains(
            node.children@[i].path@,
        ),
        node.children@[i].is_dir ==> forall|p: Seq<char>| #[trigger]
            shown_paths_of(node.children@[i], dirs).contains(p) ==> shown_paths_of(
                node,
                dirs,
            ).contains(p),
{
    lemma_child_paths(node, dirs, node.children@.len() as int, i);
}

proof fn lemma_child_paths(node: Node, dirs: bool, n: int, i: int)
    requires
        0 <= i < n <= node.children@.len(),
    ensures
        node.children@[i].is_dir == dirs ==> child_paths(node, dirs, n).contains(
            node.children@[i].path@,
        ),
        node.children@[i].is_dir ==> forall|p: Seq<char>| #[trigger]
            shown_paths_of(node.children@[i], dirs).contains(p) ==> child_paths(
                node,
                dirs,
                n,
            ).contains(p),
    decreases n,
{
    let c = node.children@[n - 1];
    let before = child_paths(node, dirs, n - 1);
    let with = if c.is_dir == dirs {
        before.push(c.path@)
    } else {
        before
    };
    let all = child_paths(node, dirs, n);
    assert forall|p: Seq<char>| #[trigger] with.contains(p) implies all.contains(p) by {
        let k = choose|k: int| 0 <= k < with.len() && with[k] == p;
        assert(all[k] == p);
    }
    if i < n - 1 {
        lemma_child_paths(node, dirs, n - 1, i);
        assert forall|p: Seq<char>| #[trigger] before.contains(p) implies all.contains(p) by {
            let k = choose|k: int| 0 <= k < before.len() && before[k] == p;
            assert(with[k] == p);
            assert(with.contains(p));
        }
    } else {
        if c.is_dir == dirs {
            assert(with[before.len() as int] == c.path@);
            assert(with.contains(c.path@));
        }
        if c.is_dir {
            let below = shown_paths_of(c, dirs);
            assert forall|p: Seq<char>| #[trigger] below.contains(p) implies all.contains(p) by {
                let k = choose|k: int| 0 <= k < below.len() && below[k] == p;
                assert(all[with.len() + k] == p);
            }
        }
    }
}

/// A name has a mark only where that is asked for: a link before a directory, a directory
/// before what can be run.
pub proof fn law_names_are_marked_by_kind(
    name: Seq<char>,
    is_symlink: bool,
    is_dir: bool,
    is_exec: bool,
)
    ensures
        marked_name(name, false, is_symlink, is_dir, is_exec) == name,
        is_symlink ==> marked_name(name, true, is_symlink, is_dir, is_exec) == name.push('@'),
        !is_symlink && is_dir ==> marked_name(name, true, is_symlink, is_dir, is_exec) == name.push(
            '/',
        ),
        !is_symlink && !is_dir && is_exec ==> marked_name(name, true, is_symlink, is_dir, is_exec)
            == name.push('*'),
        !is_symlink && !is_dir && !is_exec ==> marked_name(
            name,
            true,
            is_symlink,
            is_dir,
            is_exec,
        ) == name,
{
}

/// A file can be run where one of its three bits for that is set.
pub proof fn law_any_bit_lets_a_file_run(mode: u32)
    ensures
        runs(mode) <==> mode & 0o100 != 0 || mode & 0o010 != 0 || mode & 0o001 != 0,
{
    assert((mode & 0o111 != 0) <==> (mode & 0o100 != 0 || mode & 0o010 != 0 || mode & 0o001 != 0))
        by (bit_vector);
}

/// A word that begins with a dash is an option or ends them, and every other one names
/// something.
pub proof fn law_options_begin_with_a_dash(arg: Seq<char>)
    ensures
        arg_kind(arg) is Positional <==> !(arg.len() > 0 && arg[0] == '-'),
        arg_kind(arg) is DoubleDash <==> arg == seq!['-', '-'],
        arg_kind(arg) matches ArgKind::Option(n) ==> n <= 2,
{
    reveal_strlit("--");
    reveal_strlit("-L");
    reveal_strlit("--max-depth");
    reveal_strlit("-T");
    reveal_strlit("--trunc");
    reveal_strlit("-j");
    reveal_strlit("--threads");
    reveal_strlit("--sort");
    reveal_strlit("-");
    assert("--"@ == seq!['-', '-']);
    assert(arg.len() > 0 ==> arg.take(1)[0] == arg[0]);
    assert(arg.len() > 0 && arg[0] == '-' ==> arg.take(1) == "-"@);
}

/// The first line of a listing ends with the label of its root, and without columns it is
/// the label.
pub proof fn law_the_root_is_labelled(
    size: Seq<char>,
    git: Option<Seq<char>>,
    label: Seq<char>,
    s: RowStyle,
)
    ensures
        text::ends(root_text(size, git, label, s), label),
        !s.counts && !s.git && !s.sizes && !s.times ==> root_text(size, git, label, s) == label,
{
    let t = root_text(size, git, label, s);
    assert(t.skip(t.len() - label.len()) == label);
}

/// The words that name a field and a direction, in whatever case they are written.
pub proof fn law_words_that_name_a_sort(word: Seq<char>)
    ensures
        text::lower(word) == "name"@ ==> field_named(word) == Some(SortField::Name),
        text::lower(word) == "size"@ ==> field_named(word) == Some(SortField::Size),
        text::lower(word) == "time"@ ==> field_named(word) == Some(SortField::Time),
        text::lower(word) == "date"@ ==> field_named(word) == Some(SortField::Time),
        text::lower(word) == "mtime"@ ==> field_named(word) == Some(SortField::Time),
        text::lower(word) == "count"@ ==> field_named(word) == Some(SortField::Count),
        text::lower(word) == "counts"@ ==> field_named(word) == Some(SortField::Count),
        field_named(word) is Some ==> word.len() >= 4,
        text::lower(word) == "asc"@ ==> direction_named(word) == Some(false),
        text::lower(word) == "desc"@ ==> direction_named(word) == Some(true),
        direction_named(word) is Some ==> field_named(word) is None,
{
    reveal_strlit("name");
    reveal_strlit("size");
    reveal_strlit("time");
    reveal_strlit("date");
    reveal_strlit("mtime");
    reveal_strlit("count");
    reveal_strlit("counts");
    reveal_strlit("asc");
    reveal_strlit("desc");
    let w = text::lower(word);
    assert(w.len() == word.len());
    assert("name"@[0] == 'n' && "size"@[0] == 's' && "time"@[0] == 't' && "date"@[1] == 'a'
        && "desc"@[1] == 'e' && "desc"@[0] == 'd' && "count"@[0] == 'c' && "mtime"@[0] == 'm');
}

/// There is a row on what is left out if and only if something is, and it may be told: of
/// directories alone, if only they are listed.
pub proof fn law_rows_on_the_rest(node: Node, o: TreeOptions)
    ensures
        node.total_children_count <= node.children@.len() ==> !counts_rest(node, o),
        o.hide_more_count ==> !counts_rest(node, o),
        o.dirs_only && node.omitted_dirs_count == 0 ==> !counts_rest(node, o),
        node.total_children_count > node.children@.len() && !o.hide_more_count && !o.dirs_only
            ==> counts_rest(node, o),
        node.total_children_count > node.children@.len() && !o.hide_more_count
            && node.omitted_dirs_count > 0 ==> counts_rest(node, o),
{
}

} // verus!
