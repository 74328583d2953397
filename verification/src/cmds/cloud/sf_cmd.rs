//! Filters for the human-readable output of `sf org list` (orgs repeated
//! across groups are shown once) and `sf project deploy` (progress noise is
//! dropped, failures and the summary are kept). An explicit `--json` passes
//! the output through untouched.
use vstd::prelude::*;
use crate::text::{
    chars_of, is_space, join_lines, join_lines_exec, lines, same_chars, split_lines,
    starts_with, starts_with_from, string_from_chars, sub_chars, trim_start, trim_start_index,
    views, occurs_at, occurs_at_exec, is_space_char, append_chars, split_nl,
};

verus! {

/// How many distinct org rows `sf org list` shows at most.
pub const MAX_ORG_ROWS: usize = 20;

// ---------------------------------------------------------------------------
// Arguments
// ---------------------------------------------------------------------------
/// The flag that asks `sf` for machine-readable output.
pub open spec fn json_flag() -> Seq<char> {
    "--json"@
}

/// The arguments as character sequences.
pub open spec fn arg_views(args: Seq<String>) -> Seq<Seq<char>> {
    args.map_values(|a: String| a@)
}

/// Some argument is exactly `--json`.
pub open spec fn has_json(args: Seq<Seq<char>>) -> bool {
    exists|i: int| 0 <= i < args.len() && args[i] == json_flag()
}

/// True when the caller explicitly requested machine-readable output: some
/// argument is exactly `--json` (an argument that merely contains it does
/// not count).
pub fn has_json_flag(args: &[String]) -> (r: bool)
    ensures
        r == has_json(arg_views(args@)),
{
    let flag = String::from_str("--json");
    let n = args.len();
    for i in 0..n
        invariant
            n == args@.len(),
            flag@ == json_flag(),
            forall|j: int| 0 <= j < i ==> args@[j]@ != json_flag(),
    {
        if args[i] == flag {
            proof {
                assert(arg_views(args@)[i as int] == json_flag());
            }
            return true;
        }
    }
    proof {
        assert forall|j: int| 0 <= j < arg_views(args@).len() implies arg_views(args@)[j]
            != json_flag() by {
            assert(arg_views(args@)[j] == args@[j]@);
        }
    }
    false
}

// ---------------------------------------------------------------------------
// Error output
// ---------------------------------------------------------------------------
/// A line of a stack trace or of error metadata: once leading whitespace is
/// dropped it starts with `at `, `Code: ` or `Stack:`.
pub open spec fn is_stack_line(l: Seq<char>) -> bool {
    let t = trim_start(l);
    starts_with(t, "at "@) || starts_with(t, "Code: "@) || starts_with(t, "Stack:"@)
}

/// The lines of `ls` that are not stack lines, in order.
pub open spec fn drop_stack_lines(ls: Seq<Seq<char>>) -> Seq<Seq<char>> {
    ls.filter(|l: Seq<char>| !is_stack_line(l))
}

/// The error output `s` with its stack lines removed.
pub open spec fn stack_stripped(s: Seq<char>) -> Seq<char> {
    join_lines(drop_stack_lines(lines(s)))
}

fn copy_chars(s: &Vec<char>) -> (r: Vec<char>)
    ensures
        r@ == s@,
{
    let r = sub_chars(s, 0, s.len());
    proof {
        assert(s@.subrange(0, s@.len() as int) =~= s@);
    }
    r
}

/// Whether `l` is a stack line, given the three prefixes as characters.
fn stack_line(l: &Vec<char>, at: &Vec<char>, code: &Vec<char>, stack: &Vec<char>) -> (r: bool)
    requires
        at@ == "at "@,
        code@ == "Code: "@,
        stack@ == "Stack:"@,
    ensures
        r == is_stack_line(l@),
{
    let t = trim_start_index(l);
    starts_with_from(l, t, at) || starts_with_from(l, t, code) || starts_with_from(l, t, stack)
}

/// Drops stack-trace noise from `sf` error output and keeps message and
/// hint lines. The result is the lines of `output` that are not stack lines,
/// joined with newlines: a line subset of the input, nothing invented.
pub fn strip_stack_lines(output: &str) -> (r: String)
    ensures
        r@ == stack_stripped(output@),
{
    let s = chars_of(output);
    let ls = split_lines(&s);
    let at = chars_of("at ");
    let code = chars_of("Code: ");
    let stack = chars_of("Stack:");
    let mut kept: Vec<Vec<char>> = Vec::new();
    let n = ls.len();
    for i in 0..n
        invariant
            n == ls@.len(),
            at@ == "at "@,
            code@ == "Code: "@,
            stack@ == "Stack:"@,
            views(kept@) == drop_stack_lines(views(ls@).take(i as int)),
    {
        let ghost before = views(ls@).take(i as int);
        let ghost after = views(ls@).take(i + 1);
        proof {
            assert(after.drop_last() =~= before);
            assert(after.last() == ls@[i as int]@);
            reveal(Seq::filter);
        }
        if !stack_line(&ls[i], &at, &code, &stack) {
            let line = copy_chars(&ls[i]);
            kept.push(line);
            proof {
                assert(views(kept@) =~= drop_stack_lines(before).push(after.last()));
            }
        }
    }
    proof {
        assert(views(ls@).take(n as int) =~= views(ls@));
    }
    let joined = join_lines_exec(&kept);
    string_from_chars(&joined)
}

// ---------------------------------------------------------------------------
// Deploy output
// ---------------------------------------------------------------------------
/// The control sequence that returns the cursor to column one; an
/// interactive terminal redraws the progress frame after it.
pub open spec fn cursor_home() -> Seq<char> {
    "\x1b[G"@
}

/// `i` is the start of the last occurrence of `p` in `s`.
pub open spec fn is_last_occurrence(s: Seq<char>, p: Seq<char>, i: int) -> bool {
    occurs_at(s, p, i) && forall|j: int| #[trigger] occurs_at(s, p, j) ==> j <= i
}

/// The last frame that the terminal drew: what follows the last
/// `cursor_home()`, or all of `s` when there is none.
pub open spec fn final_frame(s: Seq<char>) -> Seq<char> {
    if exists|i: int| occurs_at(s, cursor_home(), i) {
        let i = choose|i: int| is_last_occurrence(s, cursor_home(), i);
        s.skip(i + cursor_home().len())
    } else {
        s
    }
}

/// A polling line: once leading whitespace is dropped it starts with
/// `Status: In Progress`.
pub open spec fn is_progress_line(l: Seq<char>) -> bool {
    starts_with(trim_start(l), "Status: In Progress"@)
}

/// The lines of `ls` that are not progress lines, in order.
pub open spec fn drop_progress_lines(ls: Seq<Seq<char>>) -> Seq<Seq<char>> {
    ls.filter(|l: Seq<char>| !is_progress_line(l))
}

/// The deploy output `s` reduced to its final frame without progress lines.
pub open spec fn deploy_filtered(s: Seq<char>) -> Seq<char> {
    join_lines(drop_progress_lines(lines(final_frame(s))))
}

/// The characters of `s` after the last occurrence of `p` (all of `s` when
/// `p` does not occur).
fn after_last_occurrence(s: &Vec<char>, p: &Vec<char>) -> (r: Vec<char>)
    requires
        p@ == cursor_home(),
    ensures
        r@ == final_frame(s@),
{
    let mut k: usize = s.len();
    loop
        invariant
            k <= s@.len(),
            s@.len() == s.len(),
            p@ == cursor_home(),
            forall|j: int| k < j ==> !#[trigger] occurs_at(s@, p@, j),
        decreases k,
    {
        if occurs_at_exec(s, p, k) {
            proof {
                assert(is_last_occurrence(s@, p@, k as int));
                assert(is_last_occurrence(s@, cursor_home(), k as int));
                let c = choose|i: int| is_last_occurrence(s@, cursor_home(), i);
                assert(is_last_occurrence(s@, cursor_home(), c));
                assert(c <= k && k <= c);
            }
            return sub_chars(s, k + p.len(), s.len());
        }
        if k == 0 {
            proof {
                assert forall|i: int| !occurs_at(s@, p@, i) by {
                    if 0 < i {
                        assert(k < i);
                    }
                }
                assert(!exists|i: int| occurs_at(s@, cursor_home(), i));
                assert(s@.subrange(0, s@.len() as int) =~= s@);
            }
            return sub_chars(s, 0, s.len());
        }
        k = k - 1;
    }
}

/// Strips repeated in-progress polling lines from deploy output and keeps
/// only the final frame an interactive terminal drew. Every other line is
/// kept, whatever `exit_code` is: failures lose nothing.
pub fn filter_deploy(output: &str, exit_code: i32) -> (r: String)
    ensures
        r@ == deploy_filtered(output@),
{
    let s = chars_of(output);
    let home = chars_of("\x1b[G");
    let frame = after_last_occurrence(&s, &home);
    let ls = split_lines(&frame);
    let progress = chars_of("Status: In Progress");
    let mut kept: Vec<Vec<char>> = Vec::new();
    let n = ls.len();
    for i in 0..n
        invariant
            n == ls@.len(),
            progress@ == "Status: In Progress"@,
            views(kept@) == drop_progress_lines(views(ls@).take(i as int)),
    {
        let ghost before = views(ls@).take(i as int);
        let ghost after = views(ls@).take(i + 1);
        proof {
            assert(after.drop_last() =~= before);
            assert(after.last() == ls@[i as int]@);
            reveal(Seq::filter);
        }
        let t = trim_start_index(&ls[i]);
        if !starts_with_from(&ls[i], t, &progress) {
            let line = copy_chars(&ls[i]);
            kept.push(line);
            proof {
                assert(views(kept@) =~= drop_progress_lines(before).push(after.last()));
            }
        }
    }
    proof {
        assert(views(ls@).take(n as int) =~= views(ls@));
    }
    let joined = join_lines_exec(&kept);
    string_from_chars(&joined)
}

// ---------------------------------------------------------------------------
// Org list output
// ---------------------------------------------------------------------------
/// `k` is the index of the first `c` in `l`.
pub open spec fn is_first_index(l: Seq<char>, c: char, k: int) -> bool {
    0 <= k < l.len() && l[k] == c && forall|j: int| 0 <= j < k ==> l[j] != c
}

/// Where the run of non-whitespace characters that reaches index `k` of `l`
/// starts.
pub open spec fn word_start(l: Seq<char>, k: int) -> int
    decreases k,
{
    if k <= 0 || is_space(l[k - 1]) {
        k
    } else {
        word_start(l, k - 1)
    }
}

/// Where the run of non-whitespace characters that starts at or before
/// index `k` of `l` ends.
pub open spec fn word_end(l: Seq<char>, k: int) -> int
    decreases l.len() - k,
{
    if k >= l.len() || is_space(l[k]) {
        k
    } else {
        word_end(l, k + 1)
    }
}

/// The username of an org row: the whitespace-delimited word of `l` that
/// holds its first `@` (the first word that holds an `@`). A line without
/// `@` is not an org row.
pub open spec fn username(l: Seq<char>) -> Option<Seq<char>> {
    if l.contains('@') {
        let k = choose|k: int| is_first_index(l, '@', k);
        Some(l.subrange(word_start(l, k), word_end(l, k)))
    } else {
        None
    }
}

/// Some line of `ls` holds an `@`, so the table has org rows.
pub open spec fn has_org_rows(ls: Seq<Seq<char>>) -> bool {
    exists|i: int| 0 <= i < ls.len() && ls[i].contains('@')
}

/// One pass over the lines `ls` of an org table: `(kept, seen, rows)`.
/// `rows` holds, in order, each org row whose username no earlier row had;
/// `seen` holds their usernames; `kept` holds every line that is not an org
/// row and the first `MAX_ORG_ROWS` of `rows`.
pub open spec fn scan_org_lines(ls: Seq<Seq<char>>) -> (
    Seq<Seq<char>>,
    Seq<Seq<char>>,
    Seq<Seq<char>>,
)
    decreases ls.len(),
{
    if ls.len() == 0 {
        (Seq::empty(), Seq::empty(), Seq::empty())
    } else {
        let (kept, seen, rows) = scan_org_lines(ls.drop_last());
        let l = ls.last();
        match username(l) {
            None => (kept.push(l), seen, rows),
            Some(u) => if seen.contains(u) {
                (kept, seen, rows)
            } else {
                (
                    if rows.len() < MAX_ORG_ROWS {
                        kept.push(l)
                    } else {
                        kept
                    },
                    seen.push(u),
                    rows.push(l),
                )
            },
        }
    }
}

/// The org table `s` with repeated org rows removed and at most
/// `MAX_ORG_ROWS` org rows shown; `s` itself when it has no org row.
pub open spec fn org_list_filtered(s: Seq<char>) -> Seq<char> {
    if has_org_rows(lines(s)) {
        join_lines(scan_org_lines(lines(s)).0)
    } else {
        s
    }
}

/// All distinct org rows of `s`, joined, when there are more than
/// `MAX_ORG_ROWS` of them (the rows that the filtered table hides among
/// them).
pub open spec fn org_list_overflow(s: Seq<char>) -> Option<Seq<char>> {
    if has_org_rows(lines(s)) && scan_org_lines(lines(s)).2.len() > MAX_ORG_ROWS {
        Some(join_lines(scan_org_lines(lines(s)).2))
    } else {
        None
    }
}

/// The index of the first `c` in `l`, if any.
fn first_index_of(l: &Vec<char>, c: char) -> (r: Option<usize>)
    ensures
        match r {
            Some(k) => is_first_index(l@, c, k as int),
            None => !l@.contains(c),
        },
{
    let n = l.len();
    for k in 0..n
        invariant
            n == l@.len(),
            forall|j: int| 0 <= j < k ==> l@[j] != c,
    {
        if l[k] == c {
            return Some(k);
        }
    }
    None
}

/// The username of the line `l`, if it is an org row.
fn username_of(l: &Vec<char>) -> (r: Option<Vec<char>>)
    ensures
        match r {
            Some(u) => username(l@) == Some(u@),
            None => username(l@) is None,
        },
{
    match first_index_of(l, '@') {
        None => None,
        Some(k) => {
            proof {
                let c = choose|j: int| is_first_index(l@, '@', j);
                assert(is_first_index(l@, '@', c));
                assert(c == k) by {
                    if c < k {
                        assert(l@[c] != '@');
                    } else if k < c {
                        assert(l@[k as int] != '@');
                    }
                }
            }
            let mut a = k;
            while a > 0 && !is_space_char(l[a - 1])
                invariant
                    a <= k < l@.len(),
                    word_start(l@, a as int) == word_start(l@, k as int),
                decreases a,
            {
                a = a - 1;
            }
            let mut b = k;
            while b < l.len() && !is_space_char(l[b])
                invariant
                    k <= b <= l@.len(),
                    word_end(l@, b as int) == word_end(l@, k as int),
                decreases l@.len() - b,
            {
                b = b + 1;
            }
            Some(sub_chars(l, a, b))
        },
    }
}

/// Whether `u` is one of `v`.
fn holds_chars(v: &Vec<Vec<char>>, u: &Vec<char>) -> (r: bool)
    ensures
        r == views(v@).contains(u@),
{
    let n = v.len();
    for i in 0..n
        invariant
            n == v@.len(),
            forall|j: int| 0 <= j < i ==> v@[j]@ != u@,
    {
        if same_chars(&v[i], u) {
            proof {
                assert(views(v@)[i as int] == u@);
            }
            return true;
        }
    }
    proof {
        assert forall|j: int| 0 <= j < views(v@).len() implies views(v@)[j] != u@ by {
            assert(views(v@)[j] == v@[j]@);
        }
    }
    false
}

/// Whether some line of `ls` holds an `@`.
fn any_org_row(ls: &Vec<Vec<char>>) -> (r: bool)
    ensures
        r == has_org_rows(views(ls@)),
{
    let n = ls.len();
    for i in 0..n
        invariant
            n == ls@.len(),
            forall|j: int| 0 <= j < i ==> !(#[trigger] ls@[j]@).contains('@'),
    {
        if first_index_of(&ls[i], '@').is_some() {
            proof {
                assert(views(ls@)[i as int] == ls@[i as int]@);
            }
            return true;
        }
    }
    proof {
        assert forall|j: int| 0 <= j < views(ls@).len() implies !views(ls@)[j].contains('@') by {
            assert(views(ls@)[j] == ls@[j]@);
        }
    }
    false
}

/// One pass over the lines of an org table: the kept lines and the
/// distinct org rows (see `scan_org_lines`).
fn scan_org_rows(ls: &Vec<Vec<char>>) -> (r: (Vec<Vec<char>>, Vec<Vec<char>>))
    ensures
        views(r.0@) == scan_org_lines(views(ls@)).0,
        views(r.1@) == scan_org_lines(views(ls@)).2,
{
    let mut kept: Vec<Vec<char>> = Vec::new();
    let mut seen: Vec<Vec<char>> = Vec::new();
    let mut rows: Vec<Vec<char>> = Vec::new();
    let n = ls.len();
    proof {
        assert(views(ls@).take(0) =~= Seq::<Seq<char>>::empty());
        assert(views(kept@) =~= Seq::<Seq<char>>::empty());
        assert(views(seen@) =~= Seq::<Seq<char>>::empty());
        assert(views(rows@) =~= Seq::<Seq<char>>::empty());
    }
    for i in 0..n
        invariant
            n == ls@.len(),
            rows@.len() <= i,
            (views(kept@), views(seen@), views(rows@)) == scan_org_lines(
                views(ls@).take(i as int),
            ),
    {
        let ghost before = views(ls@).take(i as int);
        let ghost after = views(ls@).take(i + 1);
        proof {
            assert(after.drop_last() =~= before);
            assert(after.last() == ls@[i as int]@);
        }
        match username_of(&ls[i]) {
            None => {
                let line = copy_chars(&ls[i]);
                kept.push(line);
                proof {
                    assert(views(kept@) =~= scan_org_lines(before).0.push(after.last()));
                }
            },
            Some(u) => {
                if !holds_chars(&seen, &u) {
                    if rows.len() < MAX_ORG_ROWS {
                        let line = copy_chars(&ls[i]);
                        kept.push(line);
                        proof {
                            assert(views(kept@) =~= scan_org_lines(before).0.push(after.last()));
                        }
                    }
                    let ghost u_view = u@;
                    seen.push(u);
                    let row = copy_chars(&ls[i]);
                    rows.push(row);
                    proof {
                        assert(views(seen@) =~= scan_org_lines(before).1.push(u_view));
                        assert(views(rows@) =~= scan_org_lines(before).2.push(after.last()));
                    }
                }
            },
        }
    }
    proof {
        assert(views(ls@).take(n as int) =~= views(ls@));
    }
    (kept, rows)
}

/// Dedupes org rows repeated across groups (same username) and caps the org
/// rows at `MAX_ORG_ROWS`. Lines that are not org rows (headers,
/// separators) pass through; output without any org row passes through
/// whole.
pub fn filter_org_list(output: &str) -> (r: String)
    ensures
        r@ == org_list_filtered(output@),
{
    let s = chars_of(output);
    let ls = split_lines(&s);
    if !any_org_row(&ls) {
        return string_from_chars(&s);
    }
    let (kept, _rows) = scan_org_rows(&ls);
    let joined = join_lines_exec(&kept);
    string_from_chars(&joined)
}

/// The filtered org table `filtered` followed by the recovery hint that the
/// tee gave for the hidden rows, on a line of its own; `filtered` alone when
/// there is no hint.
pub fn with_tee_hint(filtered: &str, hint: Option<String>) -> (r: String)
    ensures
        r@ == match hint {
            Some(h) => filtered@ + seq!['\n'] + h@,
            None => filtered@,
        },
{
    let mut out = chars_of(filtered);
    match hint {
        Some(h) => {
            out.push('\n');
            append_chars(&mut out, &chars_of(h.as_str()));
        },
        None => {},
    }
    string_from_chars(&out)
}

/// When the org table has more distinct org rows than `filter_org_list`
/// shows, all of them, joined with newlines: the text to keep aside so that
/// the hidden rows can be recovered.
pub fn org_list_overflow_rows(output: &str) -> (r: Option<String>)
    ensures
        match r {
            Some(t) => org_list_overflow(output@) == Some(t@),
            None => org_list_overflow(output@) is None,
        },
{
    let s = chars_of(output);
    let ls = split_lines(&s);
    if !any_org_row(&ls) {
        return None;
    }
    let (_kept, rows) = scan_org_rows(&ls);
    if rows.len() > MAX_ORG_ROWS {
        let joined = join_lines_exec(&rows);
        Some(string_from_chars(&joined))
    } else {
        None
    }
}

// ---------------------------------------------------------------------------
// Routing
// ---------------------------------------------------------------------------
/// What to do with an `sf` invocation.
#[derive(PartialEq, Eq, Structural, Debug, Clone, Copy)]
pub enum SfRoute {
    /// Run `sf` and pass its output through untouched.
    Passthrough,
    /// `sf org list`: filter standard output with `filter_org_list` on
    /// success and with `strip_stack_lines` on failure.
    OrgList,
    /// `sf project deploy ...`: filter the output with `filter_deploy`.
    ProjectDeploy,
}

/// The route for the arguments `args`: an explicit `--json` always passes
/// through; otherwise the first two arguments choose the filter.
pub open spec fn route_of(args: Seq<Seq<char>>) -> SfRoute {
    if has_json(args) {
        SfRoute::Passthrough
    } else if args.len() >= 2 && args[0] == "org"@ && args[1] == "list"@ {
        SfRoute::OrgList
    } else if args.len() >= 2 && args[0] == "project"@ && args[1] == "deploy"@ {
        SfRoute::ProjectDeploy
    } else {
        SfRoute::Passthrough
    }
}

/// Chooses how `sf` with the arguments `args` is run and filtered.
pub fn sf_route(args: &[String]) -> (r: SfRoute)
    ensures
        r == route_of(arg_views(args@)),
{
    if has_json_flag(args) {
        return SfRoute::Passthrough;
    }
    if args.len() < 2 {
        return SfRoute::Passthrough;
    }
    proof {
        assert(arg_views(args@)[0] == args@[0]@);
        assert(arg_views(args@)[1] == args@[1]@);
    }
    let org = String::from_str("org");
    let list = String::from_str("list");
    let project = String::from_str("project");
    let deploy = String::from_str("deploy");
    if args[0] == org && args[1] == list {
        SfRoute::OrgList
    } else if args[0] == project && args[1] == deploy {
        SfRoute::ProjectDeploy
    } else {
        SfRoute::Passthrough
    }
}

/// What the route `route` makes of the output `s` of a run that exited
/// with `exit_code`; `None` when the output passes through.
pub open spec fn routed_output(route: SfRoute, s: Seq<char>, exit_code: i32) -> Option<Seq<char>> {
    match route {
        SfRoute::Passthrough => None,
        SfRoute::OrgList => Some(
            if exit_code == 0 {
                org_list_filtered(s)
            } else {
                stack_stripped(s)
            },
        ),
        SfRoute::ProjectDeploy => Some(deploy_filtered(s)),
    }
}

/// Applies the filter of `route` to `output`, the output of a run that
/// exited with `exit_code`; `None` for a route that passes output through.
pub fn filter_routed(route: SfRoute, output: &str, exit_code: i32) -> (r: Option<String>)
    ensures
        match r {
            Some(t) => routed_output(route, output@, exit_code) == Some(t@),
            None => routed_output(route, output@, exit_code) is None,
        },
{
    match route {
        SfRoute::Passthrough => None,
        SfRoute::OrgList => {
            if exit_code == 0 {
                Some(filter_org_list(output))
            } else {
                Some(strip_stack_lines(output))
            }
        },
        SfRoute::ProjectDeploy => Some(filter_deploy(output, exit_code)),
    }
}

// ---------------------------------------------------------------------------
// Laws
// ---------------------------------------------------------------------------
/// Machine-readable output is never modified: with an explicit `--json`
/// the route is a passthrough, whatever the other arguments, the output and
/// the exit code are.
pub proof fn lemma_json_output_untouched(args: Seq<Seq<char>>, s: Seq<char>, exit_code: i32)
    requires
        has_json(args),
    ensures
        route_of(args) == SfRoute::Passthrough,
        routed_output(route_of(args), s, exit_code) is None,
{
}

/// Filtering a sequence whose elements all pass leaves it as it is.
proof fn lemma_filter_keeps_all<A>(xs: Seq<A>)
    ensures
        forall|pred: spec_fn(A) -> bool|
            (forall|i: int| 0 <= i < xs.len() ==> pred(xs[i])) ==> #[trigger] xs.filter(pred)
                == xs,
    decreases xs.len(),
{
    reveal(Seq::filter);
    if xs.len() > 0 {
        lemma_filter_keeps_all(xs.drop_last());
        assert forall|pred: spec_fn(A) -> bool|
            (forall|i: int| 0 <= i < xs.len() ==> pred(xs[i])) implies #[trigger] xs.filter(pred)
            == xs by {
            assert forall|i: int| 0 <= i < xs.drop_last().len() implies pred(xs.drop_last()[i]) by {
                assert(xs.drop_last()[i] == xs[i]);
            }
            assert(pred(xs[xs.len() - 1]));
            assert(xs.drop_last().filter(pred) == xs.drop_last());
            assert(xs.drop_last().push(xs.last()) =~= xs);
        }
    }
}

/// `strip_stack_lines` invents nothing and loses no message: every line it
/// keeps is a line of the input whose text, after leading whitespace,
/// starts with none of `at `, `Code: ` and `Stack:`; and every input line
/// of which that holds is kept, whatever it holds further on.
pub proof fn lemma_stack_stripped_lines(s: Seq<char>)
    ensures
        forall|i: int|
            0 <= i < drop_stack_lines(lines(s)).len() ==> {
                let l = #[trigger] drop_stack_lines(lines(s))[i];
                &&& !starts_with(trim_start(l), "at "@)
                &&& !starts_with(trim_start(l), "Code: "@)
                &&& !starts_with(trim_start(l), "Stack:"@)
                &&& lines(s).contains(l)
            },
        forall|i: int|
            0 <= i < lines(s).len() && !starts_with(trim_start(#[trigger] lines(s)[i]), "at "@)
                && !starts_with(trim_start(lines(s)[i]), "Code: "@) && !starts_with(
                trim_start(lines(s)[i]),
                "Stack:"@,
            ) ==> drop_stack_lines(lines(s)).contains(lines(s)[i]),
{
    broadcast use vstd::seq_lib::group_filter_ensures;
    broadcast use Seq::lemma_filter_contains_rev;

    let kept = drop_stack_lines(lines(s));
    assert forall|i: int| 0 <= i < kept.len() implies lines(s).contains(#[trigger] kept[i]) by {
        assert(kept.contains(kept[i]));
    }
}

/// What `strip_stack_lines` gives is exactly the input's lines whose text,
/// after leading whitespace, starts with none of `at `, `Code: ` and
/// `Stack:`, in order, joined with newlines.
pub proof fn lemma_stack_stripped_exact(s: Seq<char>)
    ensures
        stack_stripped(s) == join_lines(
            lines(s).filter(
                |l: Seq<char>|
                    !(starts_with(trim_start(l), "at "@) || starts_with(trim_start(l), "Code: "@)
                        || starts_with(trim_start(l), "Stack:"@)),
            ),
        ),
{
    let f1 = |l: Seq<char>| !is_stack_line(l);
    let f2 = |l: Seq<char>|
        !(starts_with(trim_start(l), "at "@) || starts_with(trim_start(l), "Code: "@)
            || starts_with(trim_start(l), "Stack:"@));
    assert(f1 =~= f2);
}

/// Output without stack lines, without `'\r'` and not ending in a newline
/// passes through `strip_stack_lines` unchanged.
pub proof fn lemma_stack_stripped_clean_passthrough(s: Seq<char>)
    requires
        forall|i: int|
            0 <= i < lines(s).len() ==> !starts_with(trim_start(#[trigger] lines(s)[i]), "at "@)
                && !starts_with(trim_start(lines(s)[i]), "Code: "@) && !starts_with(
                trim_start(lines(s)[i]),
                "Stack:"@,
            ),
        !s.contains('\r'),
        s.len() == 0 || s.last() != '\n',
    ensures
        stack_stripped(s) == s,
{
    lemma_filter_keeps_all(lines(s));
    assert(drop_stack_lines(lines(s)) == lines(s));
    crate::text::lemma_join_lines_of_lines(s);
}

/// Stripping stack lines twice is stripping them once, when the output
/// holds no `'\r'` and the stripped text does not end with a newline (with
/// a trailing empty line kept, a second pass would drop it).
pub proof fn lemma_strip_stack_lines_idempotent(s: Seq<char>)
    requires
        !s.contains('\r'),
        stack_stripped(s).len() == 0 || stack_stripped(s).last() != '\n',
    ensures
        stack_stripped(stack_stripped(s)) == stack_stripped(s),
{
    let ls = lines(s);
    let k = drop_stack_lines(ls);
    let r = stack_stripped(s);
    lemma_stack_stripped_lines(s);
    crate::text::lemma_lines_avoid(s, '\n');
    crate::text::lemma_lines_avoid(s, '\r');
    assert forall|i: int| 0 <= i < k.len() implies !(#[trigger] k[i]).contains('\n')
        && !k[i].contains('\r') && !is_stack_line(k[i]) by {
        assert(ls.contains(k[i]));
        let j = choose|j: int| 0 <= j < ls.len() && ls[j] == k[i];
        assert(!ls[j].contains('\n') && !ls[j].contains('\r'));
    }
    if r.len() == 0 {
        assert(split_nl(r) =~= seq![Seq::<char>::empty()]);
        assert(lines(r) =~= Seq::<Seq<char>>::empty());
        reveal(Seq::filter);
        assert(drop_stack_lines(lines(r)) =~= Seq::<Seq<char>>::empty());
    } else {
        assert(k.len() > 0);
        if k.last().len() == 0 {
            if k.len() == 1 {
                assert(r == k[0]);
            } else {
                assert(r == join_lines(k.drop_last()) + seq!['\n'] + k.last());
                assert(r.last() == '\n');
            }
        }
        crate::text::lemma_lines_of_join(k);
        assert(lines(r) == k);
        lemma_filter_keeps_all(k);
        assert(drop_stack_lines(k) == k);
    }
}

/// Some occurrence of `p` at `k` or later is the last one.
proof fn lemma_last_occurrence_exists(s: Seq<char>, p: Seq<char>, k: int)
    requires
        occurs_at(s, p, k),
    ensures
        exists|i: int| is_last_occurrence(s, p, i),
    decreases s.len() - k,
{
    if exists|j: int| occurs_at(s, p, j) && j > k {
        let j = choose|j: int| occurs_at(s, p, j) && j > k;
        lemma_last_occurrence_exists(s, p, j);
    } else {
        assert(is_last_occurrence(s, p, k));
    }
}

/// `filter_deploy` keeps only the final frame: the frame is a suffix of the
/// output and the cursor-home sequence does not occur in it.
pub proof fn lemma_final_frame_is_last_frame(s: Seq<char>)
    ensures
        exists|k: int| 0 <= k <= s.len() && final_frame(s) == s.skip(k),
        forall|j: int| !occurs_at(final_frame(s), cursor_home(), j),
{
    let p = cursor_home();
    reveal_strlit("\x1b[G");
    assert(p.len() == 3);
    if exists|i: int| occurs_at(s, p, i) {
        let w = choose|i: int| occurs_at(s, p, i);
        lemma_last_occurrence_exists(s, p, w);
        let i = choose|i: int| is_last_occurrence(s, p, i);
        let f = s.skip(i + p.len());
        assert(final_frame(s) == f);
        assert forall|j: int| !occurs_at(f, p, j) by {
            if occurs_at(f, p, j) {
                assert(f.subrange(j, j + p.len()) =~= s.subrange(
                    i + p.len() + j,
                    i + p.len() + j + p.len(),
                ));
                assert(occurs_at(s, p, i + p.len() + j));
            }
        }
    } else {
        assert(final_frame(s) == s.skip(0));
    }
}

/// Deploy failures are never compressed: every line `filter_deploy` keeps
/// is a line of the final frame whose text, after leading whitespace, does
/// not start with `Status: In Progress`; and every line of the final frame
/// of which that holds (a `Status: Failed` line, a failure detail) is kept.
pub proof fn lemma_deploy_kept_lines(s: Seq<char>)
    ensures
        forall|i: int|
            0 <= i < drop_progress_lines(lines(final_frame(s))).len() ==> {
                let l = #[trigger] drop_progress_lines(lines(final_frame(s)))[i];
                &&& !starts_with(trim_start(l), "Status: In Progress"@)
                &&& lines(final_frame(s)).contains(l)
            },
        forall|i: int|
            0 <= i < lines(final_frame(s)).len() && !starts_with(
                trim_start(#[trigger] lines(final_frame(s))[i]),
                "Status: In Progress"@,
            ) ==> drop_progress_lines(lines(final_frame(s))).contains(lines(final_frame(s))[i]),
{
    broadcast use vstd::seq_lib::group_filter_ensures;
    broadcast use Seq::lemma_filter_contains_rev;

    let kept = drop_progress_lines(lines(final_frame(s)));
    assert forall|i: int| 0 <= i < kept.len() implies lines(final_frame(s)).contains(
        #[trigger] kept[i],
    ) by {
        assert(kept.contains(kept[i]));
    }
}

/// What `filter_deploy` gives is exactly the lines of the text after the
/// last `\x1b[G` (all of the output when there is none) whose text, after
/// leading whitespace, does not start with `Status: In Progress`, in order,
/// joined with newlines.
pub proof fn lemma_deploy_filtered_exact(s: Seq<char>)
    ensures
        deploy_filtered(s) == join_lines(
            lines(final_frame(s)).filter(
                |l: Seq<char>| !starts_with(trim_start(l), "Status: In Progress"@),
            ),
        ),
        (forall|j: int| !occurs_at(s, "\x1b[G"@, j)) ==> final_frame(s) == s,
        forall|i: int|
            is_last_occurrence(s, "\x1b[G"@, i) ==> final_frame(s) == s.skip(i + 3),
{
    let f1 = |l: Seq<char>| !is_progress_line(l);
    let f2 = |l: Seq<char>| !starts_with(trim_start(l), "Status: In Progress"@);
    assert(f1 =~= f2);
    reveal_strlit("\x1b[G");
    assert forall|i: int| is_last_occurrence(s, "\x1b[G"@, i) implies final_frame(s) == s.skip(
        i + 3,
    ) by {
        let c = choose|c: int| is_last_occurrence(s, cursor_home(), c);
        assert(is_last_occurrence(s, cursor_home(), c));
        assert(c <= i && i <= c);
    }
}

/// The exit code changes nothing in what `filter_deploy` keeps.
pub proof fn lemma_deploy_ignores_exit_code(s: Seq<char>, a: i32, b: i32)
    ensures
        routed_output(SfRoute::ProjectDeploy, s, a) == routed_output(SfRoute::ProjectDeploy, s, b),
{
}

/// The org rows among the lines `ls` (lines holding an `@`), in order.
pub open spec fn org_rows_of(ls: Seq<Seq<char>>) -> Seq<Seq<char>> {
    ls.filter(|l: Seq<char>| l.contains('@'))
}

/// The lines of `ls` that are not org rows (headers, separators), in order.
pub open spec fn other_lines_of(ls: Seq<Seq<char>>) -> Seq<Seq<char>> {
    ls.filter(|l: Seq<char>| !l.contains('@'))
}

/// The fewer of `a` and `b`.
pub open spec fn min_nat(a: nat, b: nat) -> nat {
    if a < b {
        a
    } else {
        b
    }
}

/// What one pass over an org table keeps: the distinct rows with their
/// usernames, the shown rows, the other lines, and where each comes from.
proof fn lemma_scan_org_lines(ls: Seq<Seq<char>>)
    ensures
        scan_org_lines(ls).1.len() == scan_org_lines(ls).2.len(),
        forall|j: int|
            0 <= j < scan_org_lines(ls).2.len() ==> username(#[trigger] scan_org_lines(ls).2[j])
                == Some(scan_org_lines(ls).1[j]),
        forall|a: int, b: int|
            0 <= a < b < scan_org_lines(ls).1.len() ==> #[trigger] scan_org_lines(ls).1[a]
                != #[trigger] scan_org_lines(ls).1[b],
        org_rows_of(scan_org_lines(ls).0) == scan_org_lines(ls).2.take(
            min_nat(scan_org_lines(ls).2.len(), MAX_ORG_ROWS as nat) as int,
        ),
        other_lines_of(scan_org_lines(ls).0) == other_lines_of(ls),
        forall|i: int|
            0 <= i < ls.len() && (#[trigger] ls[i]).contains('@') ==> scan_org_lines(ls).1.contains(
                username(ls[i])->0,
            ),
        forall|k: int|
            0 <= k < scan_org_lines(ls).0.len() ==> ls.contains(#[trigger] scan_org_lines(ls).0[k]),
        forall|k: int|
            0 <= k < scan_org_lines(ls).2.len() ==> ls.contains(#[trigger] scan_org_lines(ls).2[k]),
    decreases ls.len(),
{
    broadcast use Seq::lemma_filter_push;

    if ls.len() == 0 {
        reveal(Seq::filter);
        assert(scan_org_lines(ls).2.take(0) =~= Seq::<Seq<char>>::empty());
    } else {
        let init = ls.drop_last();
        let l = ls.last();
        lemma_scan_org_lines(init);
        let (kept, seen, rows) = scan_org_lines(init);
        let (kept2, seen2, rows2) = scan_org_lines(ls);
        assert forall|x: Seq<char>| init.contains(x) implies ls.contains(x) by {
            let k = choose|k: int| 0 <= k < init.len() && init[k] == x;
            assert(ls[k] == init[k]);
        }
        assert(ls.contains(l)) by {
            assert(ls[ls.len() - 1] == l);
        }
        assert(ls =~= init.push(l));
        assert(other_lines_of(ls) == if !l.contains('@') {
            other_lines_of(init).push(l)
        } else {
            other_lines_of(init)
        });
        match username(l) {
            None => {
                assert(!l.contains('@'));
                assert(kept2 == kept.push(l));
                assert(org_rows_of(kept2) == org_rows_of(kept));
                assert(other_lines_of(kept2) == other_lines_of(kept).push(l));
                assert forall|i: int|
                    0 <= i < ls.len() && (#[trigger] ls[i]).contains('@') implies seen2.contains(
                    username(ls[i])->0,
                ) by {
                    if i < init.len() {
                        assert(ls[i] == init[i]);
                    }
                }
            },
            Some(u) => {
                assert(l.contains('@'));
                if seen.contains(u) {
                    assert(seen2 == seen);
                    assert forall|i: int|
                        0 <= i < ls.len() && (#[trigger] ls[i]).contains('@') implies seen2.contains(
                        username(ls[i])->0,
                    ) by {
                        if i < init.len() {
                            assert(ls[i] == init[i]);
                        } else {
                            assert(ls[i] == l);
                        }
                    }
                } else {
                    assert(seen2 == seen.push(u));
                    assert(rows2 == rows.push(l));
                    assert forall|a: int, b: int| 0 <= a < b < seen2.len() implies #[trigger] seen2[a]
                        != #[trigger] seen2[b] by {
                        if b == seen.len() {
                            assert(seen2[a] == seen[a]);
                            assert(seen.contains(seen[a]));
                        } else {
                            assert(seen2[a] == seen[a]);
                            assert(seen2[b] == seen[b]);
                        }
                    }
                    assert forall|j: int| 0 <= j < rows2.len() implies username(#[trigger] rows2[j])
                        == Some(seen2[j]) by {
                        if j < rows.len() {
                            assert(rows2[j] == rows[j]);
                            assert(seen2[j] == seen[j]);
                        }
                    }
                    if rows.len() < MAX_ORG_ROWS {
                        assert(kept2 == kept.push(l));
                        assert(org_rows_of(kept2) == org_rows_of(kept).push(l));
                        assert(rows2.take(rows2.len() as int) =~= rows.take(rows.len() as int).push(
                            l,
                        ));
                    } else {
                        assert(kept2 == kept);
                        assert(rows2.take(MAX_ORG_ROWS as int) =~= rows.take(MAX_ORG_ROWS as int));
                    }
                    assert forall|i: int|
                        0 <= i < ls.len() && (#[trigger] ls[i]).contains('@') implies seen2.contains(
                        username(ls[i])->0,
                    ) by {
                        if i < init.len() {
                            assert(ls[i] == init[i]);
                            let x = username(init[i])->0;
                            assert(seen.contains(x));
                            let k = choose|k: int| 0 <= k < seen.len() && seen[k] == x;
                            assert(seen2[k] == x);
                        } else {
                            assert(ls[i] == l);
                            assert(seen2[seen.len() as int] == u);
                        }
                    }
                }
            },
        }
    }
}

/// Org rows repeated across groups are shown once: no two org rows that
/// the filter keeps have the same username.
pub proof fn lemma_org_list_dedupes(ls: Seq<Seq<char>>)
    ensures
        forall|a: int, b: int|
            0 <= a < b < org_rows_of(scan_org_lines(ls).0).len() ==> username(
                #[trigger] org_rows_of(scan_org_lines(ls).0)[a],
            ) != username(#[trigger] org_rows_of(scan_org_lines(ls).0)[b]),
{
    lemma_scan_org_lines(ls);
    let rows = scan_org_lines(ls).2;
    let seen = scan_org_lines(ls).1;
    let shown = org_rows_of(scan_org_lines(ls).0);
    assert forall|a: int, b: int| 0 <= a < b < shown.len() implies username(#[trigger] shown[a])
        != username(#[trigger] shown[b]) by {
        assert(shown[a] == rows[a]);
        assert(shown[b] == rows[b]);
        assert(username(rows[a]) == Some(seen[a]));
        assert(username(rows[b]) == Some(seen[b]));
    }
}

/// The org rows shown are the first distinct ones, at most `MAX_ORG_ROWS`
/// of them; the distinct rows have pairwise different usernames and cover
/// the username of every org row of the input.
pub proof fn lemma_org_list_caps(ls: Seq<Seq<char>>)
    ensures
        org_rows_of(scan_org_lines(ls).0) == scan_org_lines(ls).2.take(
            min_nat(scan_org_lines(ls).2.len(), MAX_ORG_ROWS as nat) as int,
        ),
        org_rows_of(scan_org_lines(ls).0).len() <= MAX_ORG_ROWS,
        forall|a: int, b: int|
            0 <= a < b < scan_org_lines(ls).2.len() ==> username(#[trigger] scan_org_lines(ls).2[a])
                != username(#[trigger] scan_org_lines(ls).2[b]),
        forall|i: int|
            0 <= i < ls.len() && (#[trigger] ls[i]).contains('@') ==> exists|j: int|
                0 <= j < scan_org_lines(ls).2.len() && username(#[trigger] scan_org_lines(ls).2[j])
                    == username(ls[i]),
{
    lemma_scan_org_lines(ls);
    let rows = scan_org_lines(ls).2;
    let seen = scan_org_lines(ls).1;
    assert forall|a: int, b: int| 0 <= a < b < rows.len() implies username(#[trigger] rows[a])
        != username(#[trigger] rows[b]) by {
        assert(username(rows[a]) == Some(seen[a]));
        assert(username(rows[b]) == Some(seen[b]));
    }
    assert forall|i: int| 0 <= i < ls.len() && (#[trigger] ls[i]).contains('@') implies exists|j: int|
        0 <= j < rows.len() && username(#[trigger] rows[j]) == username(ls[i]) by {
        let u = username(ls[i])->0;
        assert(seen.contains(u));
        let j = choose|j: int| 0 <= j < seen.len() && seen[j] == u;
        assert(username(rows[j]) == Some(u));
    }
}

/// Headers, separators and every other line that is not an org row pass
/// through: the non-org lines the filter keeps are those of the input, in
/// order.
pub proof fn lemma_org_list_keeps_other_lines(ls: Seq<Seq<char>>)
    ensures
        other_lines_of(scan_org_lines(ls).0) == other_lines_of(ls),
{
    lemma_scan_org_lines(ls);
}

/// No line is invented: every line the filter keeps is a line of the input.
pub proof fn lemma_org_list_lines_from_input(ls: Seq<Seq<char>>)
    ensures
        forall|k: int|
            0 <= k < scan_org_lines(ls).0.len() ==> ls.contains(#[trigger] scan_org_lines(ls).0[k]),
{
    lemma_scan_org_lines(ls);
}

/// With at most `MAX_ORG_ROWS` distinct orgs, every org of the input is
/// shown: each org row's username is the username of a kept org row.
pub proof fn lemma_org_list_shows_every_org_when_few(ls: Seq<Seq<char>>)
    requires
        scan_org_lines(ls).2.len() <= MAX_ORG_ROWS,
    ensures
        forall|i: int|
            0 <= i < ls.len() && (#[trigger] ls[i]).contains('@') ==> exists|j: int|
                0 <= j < org_rows_of(scan_org_lines(ls).0).len() && username(
                    #[trigger] org_rows_of(scan_org_lines(ls).0)[j],
                ) == username(ls[i]),
{
    lemma_org_list_caps(ls);
    let rows = scan_org_lines(ls).2;
    assert(rows.take(rows.len() as int) =~= rows);
    let shown = org_rows_of(scan_org_lines(ls).0);
    assert(shown == rows);
}

/// `org_list_overflow_rows` answers exactly when `filter_org_list` hides an
/// org: some line holding an `@` has a username that no shown org row has.
/// Orgs repeated across groups count once, so a table of few distinct orgs
/// gets no answer however often they repeat.
pub proof fn lemma_org_list_overflow_iff_hidden(s: Seq<char>)
    ensures
        org_list_overflow(s) is Some <==> exists|i: int|
            0 <= i < lines(s).len() && (#[trigger] lines(s)[i]).contains('@') && forall|j: int|
                0 <= j < org_rows_of(scan_org_lines(lines(s)).0).len() ==> username(
                    org_rows_of(scan_org_lines(lines(s)).0)[j],
                ) != username(lines(s)[i]),
{
    let ls = lines(s);
    lemma_scan_org_lines(ls);
    lemma_org_list_caps(ls);
    let (kept, seen, rows) = scan_org_lines(ls);
    let shown = org_rows_of(kept);
    if org_list_overflow(s) is Some {
        assert(rows.len() > MAX_ORG_ROWS);
        let m = MAX_ORG_ROWS as int;
        let x = rows[m];
        assert(ls.contains(x));
        let i = choose|i: int| 0 <= i < ls.len() && ls[i] == x;
        assert(username(x) == Some(seen[m]));
        assert(x.contains('@'));
        assert forall|j: int| 0 <= j < shown.len() implies username(shown[j]) != username(ls[i]) by {
            assert(shown[j] == rows[j]);
            assert(username(rows[j]) == Some(seen[j]));
            assert(seen[j] != seen[m]);
        }
        assert(ls[i].contains('@'));
    } else {
        if exists|i: int|
            0 <= i < ls.len() && (#[trigger] ls[i]).contains('@') && forall|j: int|
                0 <= j < shown.len() ==> username(shown[j]) != username(ls[i]) {
            let i = choose|i: int|
                0 <= i < ls.len() && (#[trigger] ls[i]).contains('@') && forall|j: int|
                    0 <= j < shown.len() ==> username(shown[j]) != username(ls[i]);
            assert(has_org_rows(ls));
            assert(rows.len() <= MAX_ORG_ROWS);
            lemma_org_list_shows_every_org_when_few(ls);
            assert(false);
        }
    }
}

} // verus!
