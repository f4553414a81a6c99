//! Renders structural paths as dot-bracket strings: flattens each path,
//! marks the realized base pairs, and deduplicates the rendered strings.

use crate::matrix::mk_pos;
use crate::matrix::spec_diagonal_relation;
use crate::matrix::Position;
use crate::nussinov::RNASequence;
use crate::matrix::TraceType;
use crate::traceback_paths::cell_paths;
use crate::traceback_paths::cross_paths;
use crate::traceback_paths::flat_of_path;
use crate::traceback_paths::paths_via;
use crate::traceback_paths::prefix_paths;
use crate::traceback_paths::flats_of;
use crate::traceback_paths::lemma_flat_of_path_push;
use crate::traceback_paths::TracebackPath;
use crate::traceback_paths::TracebackPathElement;
use crate::traceback_paths::TracebackPaths;
use vstd::pervasive::VecAdditionalExecFns;
use vstd::prelude::*;

verus! {

/// The rendered dot-bracket strings, one per distinct optimal structure.
pub type SymbolicPaths = Vec<String>;

/// The buffer after processing the windows of `flat` from `w` on: a window
/// of two consecutive positions in the diagonal relation marks an opening
/// bracket at the left interval's start and a closing bracket at the right
/// interval's end; writes outside the buffer are dropped.
pub open spec fn apply_windows(buf: Seq<char>, flat: Seq<Position>, w: int) -> Seq<char>
    decreases flat.len() - w,
{
    if w < 0 || w + 1 >= flat.len() {
        buf
    } else {
        let buf2 = if spec_diagonal_relation(flat[w], flat[w + 1]) && flat[w].i < buf.len()
            && flat[w + 1].j < buf.len() {
            buf.update(flat[w].i as int, '(').update(flat[w + 1].j as int, ')')
        } else {
            buf
        };
        apply_windows(buf2, flat, w + 1)
    }
}

/// The dot-bracket string of one flattened path over a sequence of `n`
/// symbols: every position unpaired, then every realized pair marked.
pub open spec fn render_spec(n: nat, flat: Seq<Position>) -> Seq<char> {
    apply_windows(Seq::new(n, |k: int| '.'), flat, 0)
}

/// The strings of `strs` with every later duplicate dropped: each string
/// keeps its first occurrence, in order.
pub open spec fn dedup_spec(strs: Seq<Seq<char>>) -> Seq<Seq<char>>
    decreases strs.len(),
{
    if strs.len() == 0 {
        Seq::empty()
    } else {
        let rest = dedup_spec(strs.drop_last());
        if strs.drop_last().contains(strs.last()) {
            rest
        } else {
            rest.push(strs.last())
        }
    }
}

/// Deduplication keeps exactly the strings that occur.
pub proof fn lemma_dedup_contains(strs: Seq<Seq<char>>, v: Seq<char>)
    ensures
        dedup_spec(strs).contains(v) <==> strs.contains(v),
    decreases strs.len(),
{
    if strs.len() > 0 {
        let prior = strs.drop_last();
        let rest = dedup_spec(prior);
        lemma_dedup_contains(prior, v);
        if strs.contains(v) {
            let y = choose|y: int| 0 <= y < strs.len() && strs[y] == v;
            if y < strs.len() - 1 {
                assert(prior[y] == v);
                assert(prior.contains(v));
                let z = choose|z: int| 0 <= z < rest.len() && rest[z] == v;
                assert(dedup_spec(strs)[z] == v);
                assert(dedup_spec(strs).contains(v));
            } else {
                assert(v == strs.last());
                if prior.contains(strs.last()) {
                    let z = choose|z: int| 0 <= z < rest.len() && rest[z] == v;
                    assert(dedup_spec(strs)[z] == v);
                    assert(dedup_spec(strs).contains(v));
                } else {
                    assert(dedup_spec(strs).last() == v);
                    assert(dedup_spec(strs).contains(v));
                }
            }
        }
        if dedup_spec(strs).contains(v) {
            let y = choose|y: int| 0 <= y < dedup_spec(strs).len() && dedup_spec(strs)[y] == v;
            if prior.contains(strs.last()) {
                assert(rest[y] == v);
                assert(rest.contains(v));
                let z = choose|z: int| 0 <= z < prior.len() && prior[z] == v;
                assert(strs[z] == v);
                assert(strs.contains(v));
            } else {
                if y < dedup_spec(strs).len() - 1 {
                    assert(rest[y] == v);
                    assert(rest.contains(v));
                    let z = choose|z: int| 0 <= z < prior.len() && prior[z] == v;
                    assert(strs[z] == v);
                    assert(strs.contains(v));
                } else {
                    assert(v == strs.last());
                    assert(strs.contains(v));
                }
            }
        }
    }
}

/// The rendered, deduplicated output for a sequence `s` and a list of
/// structural paths.
pub open spec fn convert_spec(s: Seq<char>, paths: Seq<TracebackPath>) -> Seq<Seq<char>> {
    dedup_spec(flats_of(paths).map_values(|f: Seq<Position>| render_spec(s.len(), f)))
}

/// Turns structural paths into dot-bracket strings.
pub trait PathConverter {
    /// The symbols of the sequence the converter renders against.
    spec fn seq_chars(&self) -> Seq<char>;

    /// Renders every path as a dot-bracket string over the converter's
    /// sequence and drops every later duplicate of an earlier string.
    fn convert(&self, paths: &TracebackPaths) -> (r: SymbolicPaths)
        ensures
            r@.map_values(|t: String| t@) == convert_spec(self.seq_chars(), paths@),
    ;
}

/// The dot-bracket renderer for one validated sequence.
pub struct NussinovPathConverter<'s>(&'s RNASequence);

impl NussinovPathConverter<'_> {
    /// Builds a renderer for `sequence`.
    pub fn new<'a>(sequence: &'a RNASequence) -> (c: NussinovPathConverter<'a>)
        ensures
            c.seq_chars() == sequence@,
    {
        NussinovPathConverter(sequence)
    }

    /// The flat list of intervals a path visits: decomposition elements
    /// contribute their flattened left sub-path, then their right one.
    pub fn flatten_path(path: &TracebackPath) -> (r: Vec<Position>)
        ensures
            r@ == flat_of_path(path@),
        decreases path@,
    {
        let mut position_path: Vec<Position> = Vec::new();
        let mut x: usize = 0;
        while x < path.len()
            invariant
                x <= path@.len(),
                position_path@ == flat_of_path(path@.take(x as int)),
            decreases path@.len() - x,
        {
            proof {
                lemma_flat_of_path_push(path@.take(x as int), path@[x as int]);
                assert(path@.take(x as int + 1) =~= path@.take(x as int).push(path@[x as int]));
                assert(decreases_to!(path@ => path@[x as int]));
            }
            match &path[x] {
                TracebackPathElement::Single(p) => {
                    position_path.push(*p);
                    proof {
                        assert(position_path@ =~= flat_of_path(path@.take(x as int + 1)));
                    }
                },
                TracebackPathElement::Decomposition(f, sd) => {
                    let mut decomp_path = NussinovPathConverter::flatten_path(f);
                    let mut second_path = NussinovPathConverter::flatten_path(sd);
                    decomp_path.append(&mut second_path);
                    position_path.append(&mut decomp_path);
                    proof {
                        assert(position_path@ =~= flat_of_path(path@.take(x as int + 1)));
                    }
                },
            }
            x += 1;
        }
        proof {
            assert(path@.take(path@.len() as int) =~= path@);
        }
        position_path
    }
}

impl PathConverter for NussinovPathConverter<'_> {
    closed spec fn seq_chars(&self) -> Seq<char> {
        self.0@
    }

    fn convert(&self, paths: &TracebackPaths) -> (r: SymbolicPaths) {
        let ghost sv = self.seq_chars();
        let n = self.0.len();
        let mut symbolic_paths: SymbolicPaths = Vec::new();
        let ghost rendered = flats_of(paths@).map_values(
            |f: Seq<Position>| render_spec(sv.len(), f),
        );
        let mut x: usize = 0;
        while x < paths.len()
            invariant
                x <= paths@.len(),
                n == sv.len(),
                sv == self.seq_chars(),
                rendered == flats_of(paths@).map_values(
                    |f: Seq<Position>| render_spec(sv.len(), f),
                ),
                symbolic_paths@.map_values(|t: String| t@) == dedup_spec(
                    rendered.take(x as int),
                ),
            decreases paths@.len() - x,
        {
            let flat = NussinovPathConverter::flatten_path(&paths[x]);
            let mut char_string: Vec<char> = Vec::new();
            let mut d: usize = 0;
            while d < n
                invariant
                    d <= n,
                    char_string@ == Seq::new(d as nat, |k: int| '.'),
                decreases n - d,
            {
                char_string.push('.');
                proof {
                    assert(char_string@ =~= Seq::new(d as nat + 1, |k: int| '.'));
                }
                d += 1;
            }
            let ghost init = char_string@;
            let mut w: usize = 0;
            if flat.len() >= 2 {
                while w < flat.len() - 1
                    invariant
                        flat@.len() >= 2,
                        w <= flat@.len() - 1,
                        char_string@.len() == n,
                        forall|y: int|
                            0 <= y < char_string@.len() ==> char_string@[y] == '.'
                                || char_string@[y] == '(' || char_string@[y] == ')',
                        apply_windows(char_string@, flat@, w as int) == apply_windows(
                            init,
                            flat@,
                            0,
                        ),
                    decreases flat@.len() - w,
                {
                    let first_pos = flat[w];
                    let second_pos = flat[w + 1];
                    let diagonal = first_pos.is_diagonal_relation(&second_pos);
                    if diagonal && first_pos.i < n && second_pos.j < n {
                        char_string.set(first_pos.i, '(');
                        char_string.set(second_pos.j, ')');
                    }
                    w += 1;
                }
            }
            let string = chars_to_string(&char_string);
            proof {
                assert(char_string@ == render_spec(sv.len(), flat@));
                assert(rendered[x as int] == render_spec(sv.len(), flats_of(paths@)[x as int]));
            }
            let ghost before = symbolic_paths@.map_values(|t: String| t@);
            let mut seen = false;
            let mut y: usize = 0;
            while y < symbolic_paths.len()
                invariant
                    y <= symbolic_paths@.len(),
                    before == symbolic_paths@.map_values(|t: String| t@),
                    seen <==> exists|z: int|
                        0 <= z < y && #[trigger] symbolic_paths@[z]@ == string@,
                decreases symbolic_paths@.len() - y,
            {
                if symbolic_paths[y].eq(&string) {
                    seen = true;
                }
                y += 1;
            }
            proof {
                lemma_dedup_contains(rendered.take(x as int), string@);
                if seen {
                    let z = choose|z: int|
                        0 <= z < symbolic_paths@.len() && #[trigger] symbolic_paths@[z]@
                            == string@;
                    assert(before[z] == string@);
                    assert(before.contains(string@));
                } else if before.contains(string@) {
                    let z = choose|z: int| 0 <= z < before.len() && before[z] == string@;
                    assert(symbolic_paths@[z]@ == string@);
                }
                assert(seen <==> before.contains(string@));
                assert(flat@ == flats_of(paths@)[x as int]);
                assert(string@ == rendered[x as int]);
                assert(rendered.take(x as int + 1).drop_last() =~= rendered.take(x as int));
                assert(rendered.take(x as int + 1).last() == rendered[x as int]);
            }
            if !seen {
                symbolic_paths.push(string);
                proof {
                    assert(symbolic_paths@.map_values(|t: String| t@) =~= dedup_spec(
                        rendered.take(x as int + 1),
                    ));
                }
            } else {
                proof {
                    assert(symbolic_paths@.map_values(|t: String| t@) =~= dedup_spec(
                        rendered.take(x as int + 1),
                    ));
                }
            }
            x += 1;
        }
        proof {
            assert(rendered.take(rendered.len() as int) =~= rendered);
        }
        symbolic_paths
    }
}

/// Builds the output string from the rendered character buffer.
fn chars_to_string(v: &Vec<char>) -> (s: String)
    requires
        forall|x: int| 0 <= x < v@.len() ==> v@[x] == '.' || v@[x] == '(' || v@[x] == ')',
    ensures
        s@ == v@,
{
    let mut s = String::new();
    let mut x: usize = 0;
    while x < v.len()
        invariant
            x <= v@.len(),
            forall|y: int| 0 <= y < v@.len() ==> v@[y] == '.' || v@[y] == '(' || v@[y] == ')',
            s@ == v@.take(x as int),
        decreases v@.len() - x,
    {
        let c = v[x];
        if c == '.' {
            s.append(".");
            proof {
                reveal_strlit(".");
            }
        } else if c == '(' {
            s.append("(");
            proof {
                reveal_strlit("(");
            }
        } else {
            s.append(")");
            proof {
                reveal_strlit(")");
            }
        }
        proof {
            assert(s@ =~= v@.take(x as int + 1));
        }
        x += 1;
    }
    proof {
        assert(v@.take(v@.len() as int) =~= v@);
    }
    s
}


/// Marking windows never changes the buffer's length.
pub proof fn lemma_apply_windows_len(buf: Seq<char>, flat: Seq<Position>, w: int)
    ensures
        apply_windows(buf, flat, w).len() == buf.len(),
    decreases flat.len() - w,
{
    if !(w < 0 || w + 1 >= flat.len()) {
        let buf2 = if spec_diagonal_relation(flat[w], flat[w + 1]) && flat[w].i < buf.len()
            && flat[w + 1].j < buf.len() {
            buf.update(flat[w].i as int, '(').update(flat[w + 1].j as int, ')')
        } else {
            buf
        };
        lemma_apply_windows_len(buf2, flat, w + 1);
    }
}

/// Every rendered string is exactly as long as the sequence it is rendered
/// against, whatever path it came from.
pub proof fn lemma_render_len(n: nat, flat: Seq<Position>)
    ensures
        render_spec(n, flat).len() == n,
{
    lemma_apply_windows_len(Seq::new(n, |k: int| '.'), flat, 0);
}

/// The bracket depth after scanning `t` from depth `d`, or `None` when a
/// closing bracket arrives at depth zero (the stack underflows).
pub open spec fn scan_depth(t: Seq<char>, d: int) -> Option<int>
    decreases t.len(),
{
    if t.len() == 0 {
        Some(d)
    } else if t[0] == '(' {
        scan_depth(t.drop_first(), d + 1)
    } else if t[0] == ')' {
        if d < 1 {
            None
        } else {
            scan_depth(t.drop_first(), d - 1)
        }
    } else {
        scan_depth(t.drop_first(), d)
    }
}

/// Scanning with a stack never underflows and ends with the stack empty.
pub open spec fn balanced(t: Seq<char>) -> bool {
    scan_depth(t, 0) == Some(0int)
}

/// Scanning a concatenation scans the first part, then the second from the
/// depth the first part reached.
proof fn lemma_scan_concat(a: Seq<char>, b: Seq<char>, d: int)
    ensures
        scan_depth(a + b, d) == (if scan_depth(a, d) is Some {
            scan_depth(b, scan_depth(a, d)->0)
        } else {
            None::<int>
        }),
    decreases a.len(),
{
    if a.len() == 0 {
        assert(a + b =~= b);
    } else {
        assert((a + b).drop_first() =~= a.drop_first() + b);
        if a[0] == '(' {
            lemma_scan_concat(a.drop_first(), b, d + 1);
        } else if a[0] == ')' {
            if d >= 1 {
                lemma_scan_concat(a.drop_first(), b, d - 1);
            }
        } else {
            lemma_scan_concat(a.drop_first(), b, d);
        }
    }
}

/// A scan that succeeds from some depth succeeds one deeper, one deeper.
proof fn lemma_scan_raise(t: Seq<char>, d: int)
    requires
        scan_depth(t, d) is Some,
    ensures
        scan_depth(t, d + 1) == Some(scan_depth(t, d)->0 + 1),
    decreases t.len(),
{
    if t.len() > 0 {
        if t[0] == '(' {
            lemma_scan_raise(t.drop_first(), d + 1);
        } else if t[0] == ')' {
            lemma_scan_raise(t.drop_first(), d - 1);
        } else {
            lemma_scan_raise(t.drop_first(), d);
        }
    }
}

/// A run of unpaired markers leaves the depth unchanged.
proof fn lemma_scan_dots(t: Seq<char>, d: int)
    requires
        forall|m: int| 0 <= m < t.len() ==> t[m] == '.',
    ensures
        scan_depth(t, d) == Some(d),
    decreases t.len(),
{
    if t.len() > 0 {
        lemma_scan_dots(t.drop_first(), d);
    }
}

/// How often the character `c` occurs in `t`.
pub open spec fn count_char(t: Seq<char>, c: char) -> nat
    decreases t.len(),
{
    if t.len() == 0 {
        0
    } else {
        (if t[0] == c {
            1nat
        } else {
            0nat
        }) + count_char(t.drop_first(), c)
    }
}

/// Counting distributes over concatenation.
proof fn lemma_count_concat(a: Seq<char>, b: Seq<char>, c: char)
    ensures
        count_char(a + b, c) == count_char(a, c) + count_char(b, c),
    decreases a.len(),
{
    if a.len() == 0 {
        assert(a + b =~= b);
    } else {
        assert((a + b).drop_first() =~= a.drop_first() + b);
        lemma_count_concat(a.drop_first(), b, c);
    }
}

/// A string of unpaired markers holds no brackets.
proof fn lemma_count_dots(t: Seq<char>, c: char)
    requires
        forall|m: int| 0 <= m < t.len() ==> t[m] == '.',
        c != '.',
    ensures
        count_char(t, c) == 0,
    decreases t.len(),
{
    if t.len() > 0 {
        lemma_count_dots(t.drop_first(), c);
    }
}

/// A scan that succeeds ends at its start depth plus the surplus of opening
/// over closing brackets.
proof fn lemma_scan_counts(t: Seq<char>, d: int)
    requires
        scan_depth(t, d) is Some,
    ensures
        scan_depth(t, d)->0 == d + count_char(t, '(') - count_char(t, ')'),
    decreases t.len(),
{
    if t.len() > 0 {
        if t[0] == '(' {
            lemma_scan_counts(t.drop_first(), d + 1);
        } else if t[0] == ')' {
            lemma_scan_counts(t.drop_first(), d - 1);
        } else {
            lemma_scan_counts(t.drop_first(), d);
        }
    }
}

/// Processing the windows of a path with its first element removed is one
/// window behind processing the original path.
proof fn lemma_apply_shift(buf: Seq<char>, x: Position, rest: Seq<Position>, w: int)
    requires
        w >= 0,
    ensures
        apply_windows(buf, seq![x] + rest, w + 1) == apply_windows(buf, rest, w),
    decreases rest.len() - w,
{
    let f = seq![x] + rest;
    if w + 1 < rest.len() {
        assert(f[w + 1] == rest[w]);
        assert(f[w + 2] == rest[w + 1]);
        let buf2 = if spec_diagonal_relation(rest[w], rest[w + 1]) && rest[w].i < buf.len()
            && rest[w + 1].j < buf.len() {
            buf.update(rest[w].i as int, '(').update(rest[w + 1].j as int, ')')
        } else {
            buf
        };
        lemma_apply_shift(buf2, x, rest, w + 1);
    }
}

/// The window between a path's head and the next position happens first;
/// the rest of the windows are the windows of the tail.
proof fn lemma_apply_behead(buf: Seq<char>, p: Position, cf: Seq<Position>)
    requires
        cf.len() >= 1,
    ensures
        apply_windows(buf, seq![p] + cf, 0) == apply_windows(
            if spec_diagonal_relation(p, cf[0]) && p.i < buf.len() && cf[0].j < buf.len() {
                buf.update(p.i as int, '(').update(cf[0].j as int, ')')
            } else {
                buf
            },
            cf,
            0,
        ),
{
    let f = seq![p] + cf;
    assert(f[0] == p);
    assert(f[1] == cf[0]);
    let buf2 = if spec_diagonal_relation(p, cf[0]) && p.i < buf.len() && cf[0].j < buf.len() {
        buf.update(p.i as int, '(').update(cf[0].j as int, ')')
    } else {
        buf
    };
    lemma_apply_shift(buf2, p, cf, 0);
}

/// The windows of a concatenation: the first part's windows, then the
/// window across the boundary, then the second part's windows.
proof fn lemma_apply_concat(buf: Seq<char>, a: Seq<Position>, b: Seq<Position>)
    requires
        a.len() >= 1,
    ensures
        apply_windows(buf, a + b, 0) == apply_windows(
            apply_windows(buf, a, 0),
            seq![a.last()] + b,
            0,
        ),
    decreases a.len(),
{
    if a.len() == 1 {
        assert(a + b =~= seq![a.last()] + b);
    } else {
        let a1 = a.drop_first();
        assert(a + b =~= seq![a[0]] + (a1 + b));
        assert(a =~= seq![a[0]] + a1);
        let buf2 = if spec_diagonal_relation(a[0], a1[0]) && a[0].i < buf.len() && a1[0].j
            < buf.len() {
            buf.update(a[0].i as int, '(').update(a1[0].j as int, ')')
        } else {
            buf
        };
        assert((a1 + b)[0] == a1[0]);
        lemma_apply_behead(buf, a[0], a1 + b);
        lemma_apply_behead(buf, a[0], a1);
        lemma_apply_concat(buf2, a1, b);
        assert(a1.last() == a.last());
    }
}

/// How one enumerated derivation renders, against a buffer that holds
/// unpaired markers on the derivation's own interval: the derivation only
/// visits intervals inside its own, starts at its own interval, writes only
/// inside it, writes a balanced segment there, and writes nothing at all
/// when the interval is too narrow for any pair.
pub open spec fn render_ok(
    s: Seq<char>,
    mll: nat,
    i: int,
    j: int,
    f: Seq<Position>,
    buf: Seq<char>,
) -> bool {
    &&& forall|y: int|
        0 <= y < f.len() ==> i <= (#[trigger] f[y]).i && f[y].i <= f[y].j && f[y].j <= j
    &&& f.len() >= 1 && f[0] == mk_pos(i, j)
    &&& apply_windows(buf, f, 0).len() == buf.len()
    &&& forall|m: int|
        0 <= m < buf.len() && !(i <= m < j) ==> #[trigger] apply_windows(buf, f, 0)[m] == buf[m]
    &&& scan_depth(apply_windows(buf, f, 0).subrange(i, j), 0) == Some(0int)
    &&& count_char(apply_windows(buf, f, 0).subrange(i, j), '(') == crate::matrix_builder::dp(
        s,
        mll,
        i,
        j,
    )
    &&& (j - i <= mll ==> apply_windows(buf, f, 0) == buf)
}

/// The buffer offers the whole interval `[i, j)` as unpaired markers.
pub open spec fn buf_ready(i: int, j: int, buf: Seq<char>) -> bool {
    &&& j <= buf.len()
    &&& forall|m: int| i <= m < j ==> #[trigger] buf[m] == '.'
}

/// The complementary case of `lemma_path_render`: the derivation pairs the
/// interval's endpoints, which the window against the inward child's first
/// position marks, and derives that child.
proof fn lemma_path_render_compl(
    s: Seq<char>,
    mll: nat,
    i: int,
    j: int,
    q: Position,
    f: Seq<Position>,
    buf: Seq<char>,
)
    requires
        0 <= i < j <= s.len(),
        j <= usize::MAX,
        paths_via(s, mll, i, j, TraceType::Complementary(q)).contains(f),
        crate::matrix_builder::trace_shape_ok(TraceType::Complementary(q), i, j),
        crate::matrix_builder::traces_spec(s, mll, i, j).contains(TraceType::Complementary(q)),
        buf_ready(i, j, buf),
    ensures
        render_ok(s, mll, i, j, f, buf),
    decreases j - i, 0int,
{
    lemma_apply_windows_len(buf, f, 0);
    reveal_with_fuel(scan_depth, 3);
    let p = mk_pos(i, j);
    if j - i <= mll {
        assert(!crate::matrix_builder::pair_allowed(s, mll, i, j));
        crate::matrix_builder::lemma_no_pair_no_compl(s, mll, i, j);
        let x = choose|x: int|
            0 <= x < crate::matrix_builder::traces_spec(s, mll, i, j).len()
                && crate::matrix_builder::traces_spec(s, mll, i, j)[x]
                == TraceType::Complementary(q);
        assert(false);
    }
    crate::matrix_builder::lemma_traces_values(s, mll, i, j);
    let xv = choose|xv: int|
        0 <= xv < crate::matrix_builder::traces_spec(s, mll, i, j).len()
            && crate::matrix_builder::traces_spec(s, mll, i, j)[xv] == TraceType::Complementary(q);
    assert(crate::matrix_builder::dp(s, mll, i, j) == crate::matrix_builder::dp(
        s,
        mll,
        i + 1,
        j - 1,
    ) + 1);
    let qi = i + 1;
    let qj = j - 1;
    assert(q == mk_pos(qi, qj) && qi <= qj);
    let cps = cell_paths(s, mll, qi, qj);
    assert(paths_via(s, mll, i, j, TraceType::Complementary(q)) == prefix_paths(p, cps));
    let y = choose|y: int| 0 <= y < prefix_paths(p, cps).len() && prefix_paths(p, cps)[y] == f;
    let cf = cps[y];
    assert(f == seq![p] + cf);
    assert(cps.contains(cf));
    let buf2 = buf.update(i, '(').update(j - 1, ')');
    lemma_path_render(s, mll, qi, qj, cf, buf2);
    let b = apply_windows(buf2, cf, 0);
    assert(cf[0] == mk_pos(qi, qj));
    assert(spec_diagonal_relation(p, cf[0]));
    lemma_apply_behead(buf, p, cf);
    assert(apply_windows(buf, f, 0) == b);
    assert(b[i] == '(');
    assert(b[j - 1] == ')');
    let mid = b.subrange(qi, qj);
    assert(b.subrange(i, j) =~= seq!['('] + (mid + seq![')']));
    lemma_scan_concat(seq!['('], mid + seq![')'], 0);
    assert(seq!['('].drop_first() =~= Seq::<char>::empty());
    assert(scan_depth(seq!['('], 0) == Some(1int));
    lemma_scan_concat(mid, seq![')'], 1);
    lemma_scan_raise(mid, 0);
    assert(seq![')'].drop_first() =~= Seq::<char>::empty());
    assert(scan_depth(seq![')'], 1) == Some(0int));
    assert(scan_depth(b.subrange(i, j), 0) == Some(0int));
    reveal_with_fuel(count_char, 3);
    lemma_count_concat(seq!['('], mid + seq![')'], '(');
    lemma_count_concat(mid, seq![')'], '(');
    assert(count_char(seq!['('], '(') == 1);
    assert(count_char(seq![')'], '(') == 0);
    assert(count_char(b.subrange(i, j), '(') == 1 + count_char(mid, '('));
}

/// The unpaired case of `lemma_path_render`: the derivation drops one
/// endpoint — never a window in the diagonal relation — and derives the
/// remaining child.
proof fn lemma_path_render_unpaired(
    s: Seq<char>,
    mll: nat,
    i: int,
    j: int,
    q: Position,
    f: Seq<Position>,
    buf: Seq<char>,
)
    requires
        0 <= i < j <= s.len(),
        j <= usize::MAX,
        paths_via(s, mll, i, j, TraceType::Unpaired(q)).contains(f),
        crate::matrix_builder::trace_shape_ok(TraceType::Unpaired(q), i, j),
        crate::matrix_builder::traces_spec(s, mll, i, j).contains(TraceType::Unpaired(q)),
        buf_ready(i, j, buf),
    ensures
        render_ok(s, mll, i, j, f, buf),
    decreases j - i, 0int,
{
    lemma_apply_windows_len(buf, f, 0);
    reveal_with_fuel(scan_depth, 3);
    let p = mk_pos(i, j);
    let qi = q.i as int;
    let qj = q.j as int;
    assert(q == mk_pos(i, j - 1) || q == mk_pos(i + 1, j));
    assert(qi <= qj && qj - qi == j - i - 1 && i <= qi && qj <= j);
    crate::matrix_builder::lemma_traces_values(s, mll, i, j);
    let xv = choose|xv: int|
        0 <= xv < crate::matrix_builder::traces_spec(s, mll, i, j).len()
            && crate::matrix_builder::traces_spec(s, mll, i, j)[xv] == TraceType::Unpaired(q);
    assert(crate::matrix_builder::dp(s, mll, i, j) == crate::matrix_builder::dp(s, mll, qi, qj));
    let cps = cell_paths(s, mll, qi, qj);
    assert(paths_via(s, mll, i, j, TraceType::Unpaired(q)) == prefix_paths(p, cps));
    let y = choose|y: int| 0 <= y < prefix_paths(p, cps).len() && prefix_paths(p, cps)[y] == f;
    let cf = cps[y];
    assert(f == seq![p] + cf);
    assert(cps.contains(cf));
    lemma_path_render(s, mll, qi, qj, cf, buf);
    assert(cf[0] == mk_pos(qi, qj));
    assert(!spec_diagonal_relation(p, cf[0]));
    lemma_apply_behead(buf, p, cf);
    let b = apply_windows(buf, cf, 0);
    assert(apply_windows(buf, f, 0) == b);
    reveal_with_fuel(count_char, 3);
    if qi == i {
        assert(b[j - 1] == buf[j - 1]);
        assert(b.subrange(i, j) =~= b.subrange(i, j - 1) + seq![b[j - 1]]);
        lemma_scan_concat(b.subrange(i, j - 1), seq![b[j - 1]], 0);
        assert(seq![b[j - 1]].drop_first() =~= Seq::<char>::empty());
        lemma_count_concat(b.subrange(i, j - 1), seq![b[j - 1]], '(');
        assert(count_char(seq![b[j - 1]], '(') == 0);
    } else {
        assert(b[i] == buf[i]);
        assert(b.subrange(i, j) =~= seq![b[i]] + b.subrange(i + 1, j));
        lemma_scan_concat(seq![b[i]], b.subrange(i + 1, j), 0);
        assert(seq![b[i]].drop_first() =~= Seq::<char>::empty());
        lemma_count_concat(seq![b[i]], b.subrange(i + 1, j), '(');
        assert(count_char(seq![b[i]], '(') == 0);
    }
}

/// The decomposition case of `lemma_path_render`: the derivation splits
/// the interval and derives the two halves independently; no window forms
/// across the seams.
proof fn lemma_path_render_decomp(
    s: Seq<char>,
    mll: nat,
    i: int,
    j: int,
    q1: Position,
    q2: Position,
    f: Seq<Position>,
    buf: Seq<char>,
)
    requires
        0 <= i < j <= s.len(),
        j <= usize::MAX,
        paths_via(s, mll, i, j, TraceType::Decomposition(q1, q2)).contains(f),
        crate::matrix_builder::trace_shape_ok(TraceType::Decomposition(q1, q2), i, j),
        crate::matrix_builder::traces_spec(s, mll, i, j).contains(
            TraceType::Decomposition(q1, q2),
        ),
        buf_ready(i, j, buf),
    ensures
        render_ok(s, mll, i, j, f, buf),
    decreases j - i, 0int,
{
    lemma_apply_windows_len(buf, f, 0);
    let p = mk_pos(i, j);
    let k = choose|k: int| i + 2 <= k <= j - 2 && q1 == mk_pos(i, k) && q2 == mk_pos(k, j);
    crate::matrix_builder::lemma_traces_values(s, mll, i, j);
    let xv = choose|xv: int|
        0 <= xv < crate::matrix_builder::traces_spec(s, mll, i, j).len()
            && crate::matrix_builder::traces_spec(s, mll, i, j)[xv] == TraceType::Decomposition(
            q1,
            q2,
        );
    assert(crate::matrix_builder::dp(s, mll, i, j) == crate::matrix_builder::dp(s, mll, i, k)
        + crate::matrix_builder::dp(s, mll, k, j));
    let ls = cell_paths(s, mll, i, k);
    let rs = cell_paths(s, mll, k, j);
    assert(paths_via(s, mll, i, j, TraceType::Decomposition(q1, q2)) == cross_paths(p, ls, rs));
    crate::traceback_paths::lemma_cross_paths_member(p, ls, rs, f);
    let (a, b2) = choose|a: int, b2: int|
        0 <= a < ls.len() && 0 <= b2 < rs.len() && f == seq![p] + #[trigger] ls[a]
            + #[trigger] rs[b2];
    let lf = ls[a];
    let rf = rs[b2];
    assert(ls.contains(lf));
    assert(rs.contains(rf));
    lemma_path_render(s, mll, i, k, lf, buf);
    let bl = apply_windows(buf, lf, 0);
    lemma_path_render(s, mll, k, j, rf, bl);
    let br = apply_windows(bl, rf, 0);
    assert(f == seq![p] + (lf + rf));
    assert((lf + rf)[0] == lf[0]);
    assert(!spec_diagonal_relation(p, lf[0]));
    lemma_apply_behead(buf, p, lf + rf);
    lemma_apply_concat(buf, lf, rf);
    assert(lf.last().j <= k);
    assert(rf[0] == mk_pos(k, j));
    assert(!spec_diagonal_relation(lf.last(), rf[0]));
    lemma_apply_behead(bl, lf.last(), rf);
    assert(apply_windows(buf, f, 0) == br);
    assert(br.subrange(i, k) =~= bl.subrange(i, k));
    assert(br.subrange(i, j) =~= br.subrange(i, k) + br.subrange(k, j));
    lemma_scan_concat(br.subrange(i, k), br.subrange(k, j), 0);
    lemma_count_concat(br.subrange(i, k), br.subrange(k, j), '(');
}

/// Every derivation of the cell `(i, j)` renders well: see `render_ok`.
proof fn lemma_path_render(s: Seq<char>, mll: nat, i: int, j: int, f: Seq<Position>, buf: Seq<char>)
    requires
        0 <= i <= j <= s.len(),
        j <= usize::MAX,
        cell_paths(s, mll, i, j).contains(f),
        buf_ready(i, j, buf),
    ensures
        render_ok(s, mll, i, j, f, buf),
    decreases j - i, 1int,
{
    lemma_apply_windows_len(buf, f, 0);
    reveal_with_fuel(scan_depth, 2);
    if i == j {
        assert(cell_paths(s, mll, i, j) =~= seq![seq![mk_pos(i, j)]]);
        assert(f =~= seq![mk_pos(i, j)]);
        assert(apply_windows(buf, f, 0) == buf);
        assert(apply_windows(buf, f, 0).subrange(i, j) =~= Seq::<char>::empty());
        assert(count_char(Seq::<char>::empty(), '(') == 0);
    } else {
        let ts = crate::matrix_builder::traces_spec(s, mll, i, j);
        crate::matrix_builder::lemma_traces_shape(s, mll, i, j);
        crate::traceback_paths::lemma_paths_over_member(s, mll, i, j, ts, f);
        let x = choose|x: int|
            0 <= x < ts.len() && paths_via(s, mll, i, j, #[trigger] ts[x]).contains(f);
        let t = ts[x];
        assert(crate::matrix_builder::trace_shape_ok(t, i, j));
        assert(ts.contains(t));
        match t {
            TraceType::Complementary(q) => {
                lemma_path_render_compl(s, mll, i, j, q, f, buf);
            },
            TraceType::Unpaired(q) => {
                lemma_path_render_unpaired(s, mll, i, j, q, f, buf);
            },
            TraceType::Decomposition(q1, q2) => {
                lemma_path_render_decomp(s, mll, i, j, q1, q2, f, buf);
            },
        }
    }
}

/// Every enumerated dot-bracket string is balanced: scanning it with a
/// stack never underflows and ends with the stack empty.
pub proof fn lemma_outputs_balanced(s: Seq<char>, mll: nat, t: Seq<char>)
    requires
        crate::nussinov::strings_spec(s, mll).contains(t),
        s.len() <= usize::MAX,
    ensures
        balanced(t),
{
    let n = s.len() as int;
    let flats = cell_paths(s, mll, 0, n);
    let rendered = flats.map_values(|f: Seq<Position>| render_spec(s.len(), f));
    lemma_dedup_contains(rendered, t);
    let x = choose|x: int| 0 <= x < rendered.len() && rendered[x] == t;
    let f = flats[x];
    assert(flats.contains(f));
    let dots = Seq::new(s.len(), |m: int| '.');
    lemma_path_render(s, mll, 0, n, f, dots);
    assert(t == apply_windows(dots, f, 0));
    assert(t.subrange(0, n) =~= t);
}

/// Every output string realizes the optimal score of the whole sequence:
/// it holds exactly `value(0, n)` opening brackets and as many closing
/// ones.
pub proof fn lemma_outputs_pair_counts(s: Seq<char>, mll: nat, t: Seq<char>)
    requires
        crate::nussinov::strings_spec(s, mll).contains(t),
        s.len() <= usize::MAX,
    ensures
        count_char(t, '(') == crate::matrix_builder::dp(s, mll, 0, s.len() as int),
        count_char(t, ')') == crate::matrix_builder::dp(s, mll, 0, s.len() as int),
{
    let n = s.len() as int;
    let flats = cell_paths(s, mll, 0, n);
    let rendered = flats.map_values(|f: Seq<Position>| render_spec(s.len(), f));
    lemma_dedup_contains(rendered, t);
    let x = choose|x: int| 0 <= x < rendered.len() && rendered[x] == t;
    let f = flats[x];
    assert(flats.contains(f));
    let dots = Seq::new(s.len(), |m: int| '.');
    lemma_path_render(s, mll, 0, n, f, dots);
    assert(t == apply_windows(dots, f, 0));
    assert(t.subrange(0, n) =~= t);
    lemma_scan_counts(t, 0);
}

/// On a sequence no longer than the minimal loop length no pair can form:
/// every output string consists of unpaired markers only.
pub proof fn lemma_short_outputs_all_dots(s: Seq<char>, mll: nat, t: Seq<char>)
    requires
        crate::nussinov::strings_spec(s, mll).contains(t),
        s.len() <= usize::MAX,
        s.len() <= mll,
    ensures
        forall|m: int| 0 <= m < t.len() ==> t[m] == '.',
{
    let n = s.len() as int;
    let flats = cell_paths(s, mll, 0, n);
    let rendered = flats.map_values(|f: Seq<Position>| render_spec(s.len(), f));
    lemma_dedup_contains(rendered, t);
    let x = choose|x: int| 0 <= x < rendered.len() && rendered[x] == t;
    let f = flats[x];
    assert(flats.contains(f));
    let dots = Seq::new(s.len(), |m: int| '.');
    lemma_path_render(s, mll, 0, n, f, dots);
    assert(t == dots);
}
} // verus!
