//! Exhaustive traceback: enumerates, from a filled matrix, one structural
//! path per optimal derivation, memoizing each cell's path set so that no
//! sub-interval is enumerated twice.

use crate::matrix::lemma_arena_index_fits;
use crate::matrix::lemma_arena_index_injective;
use crate::matrix::mk_pos;
use crate::matrix::Matrix;
use crate::matrix::Position;
use crate::matrix::TraceType;
use crate::matrix_builder::matrix_filled;
use crate::matrix_builder::traces_spec;
use vstd::pervasive::VecAdditionalExecFns;
use vstd::prelude::*;

verus! {

/// One element of a structural path: either a visited interval, or a
/// decomposition carrying its two independently derived sub-paths.
#[derive(Debug)]
pub enum TracebackPathElement {
    /// A visited interval; a diagonal one ends its chain.
    Single(Position),
    /// A split into two sub-derivations, kept unflattened so that later
    /// flattening can recover the structure.
    Decomposition(Vec<TracebackPathElement>, Vec<TracebackPathElement>),
}

/// One full derivation of an optimal structure, root interval first.
pub type TracebackPath = Vec<TracebackPathElement>;

/// All derivations enumerated for one matrix, in enumeration order.
pub type TracebackPaths = Vec<TracebackPath>;

/// The sequence of intervals a path element visits, in order: a
/// decomposition contributes its flattened left sub-path followed by its
/// flattened right sub-path.
pub open spec fn flat_of_elem(e: TracebackPathElement) -> Seq<Position>
    decreases e,
{
    match e {
        TracebackPathElement::Single(p) => seq![p],
        TracebackPathElement::Decomposition(f, s) => flat_of_path(f@) + flat_of_path(s@),
    }
}

/// The sequence of intervals a whole path visits, in order.
pub open spec fn flat_of_path(p: Seq<TracebackPathElement>) -> Seq<Position>
    decreases p,
{
    if p.len() == 0 {
        Seq::empty()
    } else {
        flat_of_elem(p[0]) + flat_of_path(p.drop_first())
    }
}

/// The flattened views of a list of paths, in order.
pub open spec fn flats_of(paths: Seq<TracebackPath>) -> Seq<Seq<Position>> {
    paths.map_values(|p: TracebackPath| flat_of_path(p@))
}

/// The abstract shape of a path element: the visited interval, or a split
/// carrying the shapes of its two sub-derivations as mathematical
/// sequences. Two paths with the same shape are indistinguishable.
pub enum PathModel {
    /// A visited interval.
    Single(Position),
    /// A split into two sub-derivations.
    Split(Seq<PathModel>, Seq<PathModel>),
}

/// The abstract shape of one path element.
pub open spec fn elem_model(e: TracebackPathElement) -> PathModel
    decreases e,
{
    match e {
        TracebackPathElement::Single(p) => PathModel::Single(p),
        TracebackPathElement::Decomposition(f, s) => PathModel::Split(
            path_model(f@),
            path_model(s@),
        ),
    }
}

/// The abstract shape of one path.
pub open spec fn path_model(p: Seq<TracebackPathElement>) -> Seq<PathModel>
    decreases p,
{
    if p.len() == 0 {
        Seq::empty()
    } else {
        seq![elem_model(p[0])] + path_model(p.drop_first())
    }
}

/// The abstract shapes of a list of paths, in order.
pub open spec fn models_of(paths: Seq<TracebackPath>) -> Seq<Seq<PathModel>> {
    paths.map_values(|p: TracebackPath| path_model(p@))
}

/// The shape distributes over appending one element to a path.
pub proof fn lemma_path_model_push(p: Seq<TracebackPathElement>, e: TracebackPathElement)
    ensures
        path_model(p.push(e)) == path_model(p).push(elem_model(e)),
    decreases p.len(),
{
    if p.len() == 0 {
        reveal_with_fuel(path_model, 3);
        assert(p.push(e)[0] == e);
        assert(p.push(e).drop_first() =~= Seq::<TracebackPathElement>::empty());
        assert(path_model(p.push(e)) =~= path_model(p).push(elem_model(e)));
    } else {
        assert(p.push(e).drop_first() =~= p.drop_first().push(e));
        lemma_path_model_push(p.drop_first(), e);
        assert(path_model(p.push(e)) =~= path_model(p).push(elem_model(e)));
    }
}

/// Flattening distributes over appending one element to a path.
pub proof fn lemma_flat_of_path_push(p: Seq<TracebackPathElement>, e: TracebackPathElement)
    ensures
        flat_of_path(p.push(e)) == flat_of_path(p) + flat_of_elem(e),
    decreases p.len(),
{
    if p.len() == 0 {
        reveal_with_fuel(flat_of_path, 3);
        assert(p.push(e)[0] == e);
        assert(p.push(e).drop_first() =~= Seq::<TracebackPathElement>::empty());
        assert(flat_of_path(p.push(e)) =~= flat_of_elem(e));
        assert(flat_of_path(p) + flat_of_elem(e) =~= flat_of_elem(e));
    } else {
        assert(p.push(e).drop_first() =~= p.drop_first().push(e));
        lemma_flat_of_path_push(p.drop_first(), e);
        assert(flat_of_path(p.push(e)) =~= flat_of_path(p) + flat_of_elem(e));
    }
}

/// Every flattened path of the cell `(i, j)`, in enumeration order: one per
/// distinct derivation of the cell's optimal value. A diagonal cell has a
/// single derivation, its own position, so that the final pair of a
/// complementary chain is still visible to the renderer; a non-diagonal
/// cell contributes, for each of its traces in order, the derivations
/// through that trace.
pub open spec fn cell_paths(s: Seq<char>, mll: nat, i: int, j: int) -> Seq<Seq<Position>>
    decreases j - i, 2int, 0int,
{
    if !(0 <= i <= j <= s.len()) {
        Seq::empty()
    } else if i == j {
        seq![seq![mk_pos(i, j)]]
    } else {
        paths_over(s, mll, i, j, traces_spec(s, mll, i, j))
    }
}

/// The derivations of `(i, j)` through each trace of `ts`, concatenated in
/// order.
pub open spec fn paths_over(s: Seq<char>, mll: nat, i: int, j: int, ts: Seq<TraceType>) -> Seq<
    Seq<Position>,
>
    decreases j - i, 1int, ts.len(),
{
    if ts.len() == 0 {
        Seq::empty()
    } else {
        paths_via(s, mll, i, j, ts[0]) + paths_over(s, mll, i, j, ts.drop_first())
    }
}

/// The derivations of `(i, j)` through one trace: the cell's own position
/// followed by each derivation of the child, or, for a decomposition, by
/// every pairing of a left derivation with a right derivation.
pub open spec fn paths_via(s: Seq<char>, mll: nat, i: int, j: int, t: TraceType) -> Seq<
    Seq<Position>,
>
    decreases j - i, 0int, 0int,
{
    let p = mk_pos(i, j);
    match t {
        TraceType::Complementary(q) => {
            if q.i <= q.j && q.j - q.i < j - i {
                prefix_paths(p, cell_paths(s, mll, q.i as int, q.j as int))
            } else {
                Seq::empty()
            }
        },
        TraceType::Unpaired(q) => {
            if q.i <= q.j && q.j - q.i < j - i {
                prefix_paths(p, cell_paths(s, mll, q.i as int, q.j as int))
            } else {
                Seq::empty()
            }
        },
        TraceType::Decomposition(q1, q2) => {
            if q1.i <= q1.j && q1.j - q1.i < j - i && q2.i <= q2.j && q2.j - q2.i < j - i {
                cross_paths(
                    p,
                    cell_paths(s, mll, q1.i as int, q1.j as int),
                    cell_paths(s, mll, q2.i as int, q2.j as int),
                )
            } else {
                Seq::empty()
            }
        },
    }
}

/// Each path of `paths`, preceded by the position `p`.
pub open spec fn prefix_paths(p: Position, paths: Seq<Seq<Position>>) -> Seq<Seq<Position>> {
    paths.map_values(|q: Seq<Position>| seq![p] + q)
}

/// The full cross product of left and right derivations, left-major: the
/// position `p`, then one left derivation, then one right derivation.
pub open spec fn cross_paths(p: Position, ls: Seq<Seq<Position>>, rs: Seq<Seq<Position>>) -> Seq<
    Seq<Position>,
>
    decreases ls.len(),
{
    if ls.len() == 0 {
        Seq::empty()
    } else {
        rs.map_values(|r: Seq<Position>| seq![p] + ls[0] + r) + cross_paths(p, ls.drop_first(), rs)
    }
}

/// The shape of every derivation of the cell `(i, j)`, in enumeration
/// order: the canonical structured counterpart of `cell_paths`. A diagonal
/// cell derives its own position; a non-diagonal cell derives, for each of
/// its traces in order, through that trace.
pub open spec fn cell_path_models(s: Seq<char>, mll: nat, i: int, j: int) -> Seq<Seq<PathModel>>
    decreases j - i, 2int, 0int,
{
    if !(0 <= i <= j <= s.len()) {
        Seq::empty()
    } else if i == j {
        seq![seq![PathModel::Single(mk_pos(i, j))]]
    } else {
        models_over(s, mll, i, j, traces_spec(s, mll, i, j))
    }
}

/// The shapes of the derivations of `(i, j)` through each trace of `ts`,
/// concatenated in order.
pub open spec fn models_over(s: Seq<char>, mll: nat, i: int, j: int, ts: Seq<TraceType>) -> Seq<
    Seq<PathModel>,
>
    decreases j - i, 1int, ts.len(),
{
    if ts.len() == 0 {
        Seq::empty()
    } else {
        models_via(s, mll, i, j, ts[0]) + models_over(s, mll, i, j, ts.drop_first())
    }
}

/// The shapes of the derivations of `(i, j)` through one trace: the cell's
/// own position followed by a child derivation, or, for a decomposition,
/// the cell's own position and a split element pairing one left derivation
/// with one right derivation.
pub open spec fn models_via(s: Seq<char>, mll: nat, i: int, j: int, t: TraceType) -> Seq<
    Seq<PathModel>,
>
    decreases j - i, 0int, 0int,
{
    let p = mk_pos(i, j);
    match t {
        TraceType::Complementary(q) => {
            if q.i <= q.j && q.j - q.i < j - i {
                prefix_models(p, cell_path_models(s, mll, q.i as int, q.j as int))
            } else {
                Seq::empty()
            }
        },
        TraceType::Unpaired(q) => {
            if q.i <= q.j && q.j - q.i < j - i {
                prefix_models(p, cell_path_models(s, mll, q.i as int, q.j as int))
            } else {
                Seq::empty()
            }
        },
        TraceType::Decomposition(q1, q2) => {
            if q1.i <= q1.j && q1.j - q1.i < j - i && q2.i <= q2.j && q2.j - q2.i < j - i {
                cross_models(
                    p,
                    cell_path_models(s, mll, q1.i as int, q1.j as int),
                    cell_path_models(s, mll, q2.i as int, q2.j as int),
                )
            } else {
                Seq::empty()
            }
        },
    }
}

/// Each shape of `ms`, preceded by the position `p`.
pub open spec fn prefix_models(p: Position, ms: Seq<Seq<PathModel>>) -> Seq<Seq<PathModel>> {
    ms.map_values(|m: Seq<PathModel>| seq![PathModel::Single(p)] + m)
}

/// The full cross product of left and right derivation shapes, left-major:
/// the position `p`, then one split element carrying a left and a right
/// derivation.
pub open spec fn cross_models(p: Position, ls: Seq<Seq<PathModel>>, rs: Seq<Seq<PathModel>>) -> Seq<
    Seq<PathModel>,
>
    decreases ls.len(),
{
    if ls.len() == 0 {
        Seq::empty()
    } else {
        rs.map_values(|r: Seq<PathModel>| seq![PathModel::Single(p), PathModel::Split(ls[0], r)])
            + cross_models(p, ls.drop_first(), rs)
    }
}

/// Deep copy of one path element; the copy has the same shape, so it also
/// flattens to the same intervals.
fn copy_elem(e: &TracebackPathElement) -> (r: TracebackPathElement)
    ensures
        elem_model(r) == elem_model(*e),
        flat_of_elem(r) == flat_of_elem(*e),
    decreases *e,
{
    match e {
        TracebackPathElement::Single(p) => TracebackPathElement::Single(*p),
        TracebackPathElement::Decomposition(f, s) => TracebackPathElement::Decomposition(
            copy_path(f),
            copy_path(s),
        ),
    }
}

/// Deep copy of one path; the copy has the same shape, so it also
/// flattens to the same intervals.
fn copy_path(p: &TracebackPath) -> (r: TracebackPath)
    ensures
        path_model(r@) == path_model(p@),
        flat_of_path(r@) == flat_of_path(p@),
    decreases *p,
{
    let mut r: TracebackPath = Vec::new();
    let mut x: usize = 0;
    while x < p.len()
        invariant
            x <= p@.len(),
            path_model(r@) == path_model(p@.take(x as int)),
            flat_of_path(r@) == flat_of_path(p@.take(x as int)),
        decreases p@.len() - x,
    {
        let e = copy_elem(&p[x]);
        let ghost r0 = r@;
        r.push(e);
        proof {
            assert(r@ =~= r0.push(e));
            lemma_flat_of_path_push(r0, e);
            lemma_flat_of_path_push(p@.take(x as int), p@[x as int]);
            lemma_path_model_push(r0, e);
            lemma_path_model_push(p@.take(x as int), p@[x as int]);
            assert(p@.take(x as int + 1) =~= p@.take(x as int).push(p@[x as int]));
        }
        x += 1;
    }
    proof {
        assert(p@.take(p@.len() as int) =~= p@);
    }
    r
}

/// Deep copy of a list of paths; the copies have the same shapes, so they
/// also flatten to the same intervals.
fn copy_paths(ps: &TracebackPaths) -> (r: TracebackPaths)
    ensures
        models_of(r@) == models_of(ps@),
        flats_of(r@) == flats_of(ps@),
{
    let mut r: TracebackPaths = Vec::new();
    let mut x: usize = 0;
    while x < ps.len()
        invariant
            x <= ps@.len(),
            r@.len() == x,
            forall|t: int| 0 <= t < x ==> path_model(#[trigger] r@[t]@) == path_model(ps@[t]@),
            forall|t: int| 0 <= t < x ==> flat_of_path(#[trigger] r@[t]@) == flat_of_path(ps@[t]@),
        decreases ps@.len() - x,
    {
        let p = copy_path(&ps[x]);
        r.push(p);
        x += 1;
    }
    proof {
        assert(models_of(r@) =~= models_of(ps@));
        assert(flats_of(r@) =~= flats_of(ps@));
    }
    r
}


/// Enumerating through a list of traces distributes over concatenation.
proof fn lemma_paths_over_concat(
    s: Seq<char>,
    mll: nat,
    i: int,
    j: int,
    a: Seq<TraceType>,
    b: Seq<TraceType>,
)
    ensures
        paths_over(s, mll, i, j, a + b) == paths_over(s, mll, i, j, a) + paths_over(s, mll, i, j, b),
    decreases a.len(),
{
    if a.len() == 0 {
        assert(a + b =~= b);
        assert(paths_over(s, mll, i, j, a) + paths_over(s, mll, i, j, b) =~= paths_over(
            s,
            mll,
            i,
            j,
            b,
        ));
    } else {
        assert((a + b).drop_first() =~= a.drop_first() + b);
        lemma_paths_over_concat(s, mll, i, j, a.drop_first(), b);
        assert(paths_over(s, mll, i, j, a + b) =~= paths_over(s, mll, i, j, a) + paths_over(
            s,
            mll,
            i,
            j,
            b,
        ));
    }
}

/// The cross product distributes over concatenation of left path lists.
proof fn lemma_cross_paths_concat(
    p: Position,
    a: Seq<Seq<Position>>,
    b: Seq<Seq<Position>>,
    rs: Seq<Seq<Position>>,
)
    ensures
        cross_paths(p, a + b, rs) == cross_paths(p, a, rs) + cross_paths(p, b, rs),
    decreases a.len(),
{
    if a.len() == 0 {
        assert(a + b =~= b);
        assert(cross_paths(p, a, rs) + cross_paths(p, b, rs) =~= cross_paths(p, b, rs));
    } else {
        assert((a + b).drop_first() =~= a.drop_first() + b);
        lemma_cross_paths_concat(p, a.drop_first(), b, rs);
        assert(cross_paths(p, a + b, rs) =~= cross_paths(p, a, rs) + cross_paths(p, b, rs));
    }
}

/// Deriving shapes through a list of traces distributes over concatenation.
proof fn lemma_models_over_concat(
    s: Seq<char>,
    mll: nat,
    i: int,
    j: int,
    a: Seq<TraceType>,
    b: Seq<TraceType>,
)
    ensures
        models_over(s, mll, i, j, a + b) == models_over(s, mll, i, j, a) + models_over(
            s,
            mll,
            i,
            j,
            b,
        ),
    decreases a.len(),
{
    if a.len() == 0 {
        assert(a + b =~= b);
        assert(models_over(s, mll, i, j, a) + models_over(s, mll, i, j, b) =~= models_over(
            s,
            mll,
            i,
            j,
            b,
        ));
    } else {
        assert((a + b).drop_first() =~= a.drop_first() + b);
        lemma_models_over_concat(s, mll, i, j, a.drop_first(), b);
        assert(models_over(s, mll, i, j, a + b) =~= models_over(s, mll, i, j, a) + models_over(
            s,
            mll,
            i,
            j,
            b,
        ));
    }
}

/// The shape cross product distributes over concatenation of left lists.
proof fn lemma_cross_models_concat(
    p: Position,
    a: Seq<Seq<PathModel>>,
    b: Seq<Seq<PathModel>>,
    rs: Seq<Seq<PathModel>>,
)
    ensures
        cross_models(p, a + b, rs) == cross_models(p, a, rs) + cross_models(p, b, rs),
    decreases a.len(),
{
    if a.len() == 0 {
        assert(a + b =~= b);
        assert(cross_models(p, a, rs) + cross_models(p, b, rs) =~= cross_models(p, b, rs));
    } else {
        assert((a + b).drop_first() =~= a.drop_first() + b);
        lemma_cross_models_concat(p, a.drop_first(), b, rs);
        assert(cross_models(p, a + b, rs) =~= cross_models(p, a, rs) + cross_models(p, b, rs));
    }
}

/// Appends, for each derivation of `sub`, that derivation preceded by the
/// position `pos`.
fn append_prefixed(pos: Position, sub: &TracebackPaths, out: &mut TracebackPaths)
    ensures
        flats_of(final(out)@) == flats_of(old(out)@) + prefix_paths(pos, flats_of(sub@)),
        models_of(final(out)@) == models_of(old(out)@) + prefix_models(pos, models_of(sub@)),
{
    let ghost base = flats_of(out@);
    let ghost basem = models_of(out@);
    let ghost fl = flats_of(sub@);
    let ghost ml = models_of(sub@);
    let mut y: usize = 0;
    while y < sub.len()
        invariant
            y <= sub@.len(),
            base == flats_of(old(out)@),
            basem == models_of(old(out)@),
            fl == flats_of(sub@),
            ml == models_of(sub@),
            flats_of(out@) == base + prefix_paths(pos, fl.take(y as int)),
            models_of(out@) == basem + prefix_models(pos, ml.take(y as int)),
        decreases sub@.len() - y,
    {
        let mut np = copy_path(&sub[y]);
        let ghost c = np@;
        np.insert(0, TracebackPathElement::Single(pos));
        proof {
            assert(fl[y as int] == flat_of_path(sub@[y as int]@));
            assert(ml[y as int] == path_model(sub@[y as int]@));
            assert(np@ =~= seq![TracebackPathElement::Single(pos)] + c);
            assert(np@.drop_first() =~= c);
            assert(flat_of_path(np@) == flat_of_elem(TracebackPathElement::Single(pos))
                + flat_of_path(c));
            assert(flat_of_path(np@) =~= seq![pos] + fl[y as int]);
            assert(path_model(np@) == seq![elem_model(TracebackPathElement::Single(pos))]
                + path_model(c));
            assert(path_model(np@) =~= seq![PathModel::Single(pos)] + ml[y as int]);
        }
        let ghost out0 = out@;
        out.push(np);
        proof {
            assert(flats_of(out@) =~= flats_of(out0).push(flat_of_path(np@)));
            assert(fl.take(y as int + 1) =~= fl.take(y as int).push(fl[y as int]));
            assert(prefix_paths(pos, fl.take(y as int + 1)) =~= prefix_paths(
                pos,
                fl.take(y as int),
            ).push(seq![pos] + fl[y as int]));
            assert(flats_of(out@) =~= base + prefix_paths(pos, fl.take(y as int + 1)));
            assert(models_of(out@) =~= models_of(out0).push(path_model(np@)));
            assert(ml.take(y as int + 1) =~= ml.take(y as int).push(ml[y as int]));
            assert(prefix_models(pos, ml.take(y as int + 1)) =~= prefix_models(
                pos,
                ml.take(y as int),
            ).push(seq![PathModel::Single(pos)] + ml[y as int]));
            assert(models_of(out@) =~= basem + prefix_models(pos, ml.take(y as int + 1)));
        }
        y += 1;
    }
    proof {
        assert(fl.take(fl.len() as int) =~= fl);
        assert(ml.take(ml.len() as int) =~= ml);
    }
}

/// Appends, for every pairing of a left derivation with a right derivation,
/// the combined derivation: the position `pos`, a decomposition element
/// carrying the two sub-paths.
fn append_cross(pos: Position, left: &TracebackPaths, right: &TracebackPaths, out: &mut TracebackPaths)
    ensures
        flats_of(final(out)@) == flats_of(old(out)@) + cross_paths(
            pos,
            flats_of(left@),
            flats_of(right@),
        ),
        models_of(final(out)@) == models_of(old(out)@) + cross_models(
            pos,
            models_of(left@),
            models_of(right@),
        ),
{
    let ghost base0 = flats_of(out@);
    let ghost base0m = models_of(out@);
    let ghost lf = flats_of(left@);
    let ghost rf = flats_of(right@);
    let ghost lm = models_of(left@);
    let ghost rm = models_of(right@);
    let mut l: usize = 0;
    while l < left.len()
        invariant
            l <= left@.len(),
            base0 == flats_of(old(out)@),
            base0m == models_of(old(out)@),
            lf == flats_of(left@),
            rf == flats_of(right@),
            lm == models_of(left@),
            rm == models_of(right@),
            flats_of(out@) == base0 + cross_paths(pos, lf.take(l as int), rf),
            models_of(out@) == base0m + cross_models(pos, lm.take(l as int), rm),
        decreases left@.len() - l,
    {
        let ghost base1 = flats_of(out@);
        let ghost base1m = models_of(out@);
        let mut r: usize = 0;
        while r < right.len()
            invariant
                r <= right@.len(),
                l < left@.len(),
                base1.len() == base1m.len(),
                base1 == flats_of(out@).take(base1.len() as int),
                base1m == models_of(out@).take(base1m.len() as int),
                flats_of(out@) == base1 + rf.subrange(0, r as int).map_values(
                    |q: Seq<Position>| seq![pos] + lf[l as int] + q,
                ),
                models_of(out@) == base1m + rm.subrange(0, r as int).map_values(
                    |q: Seq<PathModel>| seq![PathModel::Single(pos), PathModel::Split(lm[l as int], q)],
                ),
                lf == flats_of(left@),
                rf == flats_of(right@),
                lm == models_of(left@),
                rm == models_of(right@),
            decreases right@.len() - r,
        {
            let lcopy = copy_path(&left[l]);
            let rcopy = copy_path(&right[r]);
            let mut np: TracebackPath = Vec::new();
            np.push(TracebackPathElement::Single(pos));
            let ghost np1 = np@;
            np.push(TracebackPathElement::Decomposition(lcopy, rcopy));
            proof {
                assert(np1 =~= Seq::<TracebackPathElement>::empty().push(
                    TracebackPathElement::Single(pos),
                ));
                lemma_flat_of_path_push(
                    Seq::<TracebackPathElement>::empty(),
                    TracebackPathElement::Single(pos),
                );
                assert(np@ =~= np1.push(TracebackPathElement::Decomposition(lcopy, rcopy)));
                lemma_flat_of_path_push(
                    np1,
                    TracebackPathElement::Decomposition(lcopy, rcopy),
                );
                assert(flat_of_path(Seq::<TracebackPathElement>::empty())
                    == Seq::<Position>::empty());
                assert(flat_of_path(np@) =~= seq![pos] + lf[l as int] + rf[r as int]);
                lemma_path_model_push(
                    Seq::<TracebackPathElement>::empty(),
                    TracebackPathElement::Single(pos),
                );
                lemma_path_model_push(np1, TracebackPathElement::Decomposition(lcopy, rcopy));
                assert(path_model(Seq::<TracebackPathElement>::empty())
                    == Seq::<PathModel>::empty());
                assert(path_model(lcopy@) == lm[l as int]);
                assert(path_model(rcopy@) == rm[r as int]);
                assert(path_model(np@) =~= seq![
                    PathModel::Single(pos),
                    PathModel::Split(lm[l as int], rm[r as int]),
                ]);
            }
            let ghost out0 = out@;
            out.push(np);
            proof {
                assert(flats_of(out@) =~= flats_of(out0).push(flat_of_path(np@)));
                assert(rf.subrange(0, r as int + 1).map_values(
                    |q: Seq<Position>| seq![pos] + lf[l as int] + q,
                ) =~= rf.subrange(0, r as int).map_values(
                    |q: Seq<Position>| seq![pos] + lf[l as int] + q,
                ).push(seq![pos] + lf[l as int] + rf[r as int]));
                assert(flats_of(out@) =~= base1 + rf.subrange(0, r as int + 1).map_values(
                    |q: Seq<Position>| seq![pos] + lf[l as int] + q,
                ));
                assert(models_of(out@) =~= models_of(out0).push(path_model(np@)));
                assert(rm.subrange(0, r as int + 1).map_values(
                    |q: Seq<PathModel>| seq![PathModel::Single(pos), PathModel::Split(lm[l as int], q)],
                ) =~= rm.subrange(0, r as int).map_values(
                    |q: Seq<PathModel>| seq![PathModel::Single(pos), PathModel::Split(lm[l as int], q)],
                ).push(seq![PathModel::Single(pos), PathModel::Split(lm[l as int], rm[r as int])]));
                assert(models_of(out@) =~= base1m + rm.subrange(0, r as int + 1).map_values(
                    |q: Seq<PathModel>| seq![PathModel::Single(pos), PathModel::Split(lm[l as int], q)],
                ));
            }
            r += 1;
        }
        proof {
            assert(rf.subrange(0, rf.len() as int) =~= rf);
            assert(lf.take(l as int + 1) =~= lf.take(l as int) + seq![lf[l as int]]);
            lemma_cross_paths_concat(pos, lf.take(l as int), seq![lf[l as int]], rf);
            reveal_with_fuel(cross_paths, 3);
            assert(seq![lf[l as int]].drop_first() =~= Seq::<Seq<Position>>::empty());
            assert(cross_paths(pos, seq![lf[l as int]], rf) =~= rf.map_values(
                |q: Seq<Position>| seq![pos] + lf[l as int] + q,
            ));
            assert(flats_of(out@) =~= base0 + cross_paths(pos, lf.take(l as int + 1), rf));
            assert(rm.subrange(0, rm.len() as int) =~= rm);
            assert(lm.take(l as int + 1) =~= lm.take(l as int) + seq![lm[l as int]]);
            lemma_cross_models_concat(pos, lm.take(l as int), seq![lm[l as int]], rm);
            reveal_with_fuel(cross_models, 3);
            assert(seq![lm[l as int]].drop_first() =~= Seq::<Seq<PathModel>>::empty());
            assert(cross_models(pos, seq![lm[l as int]], rm) =~= rm.map_values(
                |q: Seq<PathModel>| seq![PathModel::Single(pos), PathModel::Split(lm[l as int], q)],
            ));
            assert(models_of(out@) =~= base0m + cross_models(pos, lm.take(l as int + 1), rm));
        }
        l += 1;
    }
    proof {
        assert(lf.take(lf.len() as int) =~= lf);
        assert(lm.take(lm.len() as int) =~= lm);
    }
}

/// The flat index of the cell `(ii, jj)` in the memo table of a matrix
/// with `n + 1` rows.
pub open spec fn cell_index(n: int, ii: int, jj: int) -> int {
    ii * (n + 1) + jj
}

/// Every memoized entry holds exactly its cell's enumerated derivations,
/// shape and flattening alike.
pub open spec fn memo_ok(memo: Seq<Option<TracebackPaths>>, s: Seq<char>, mll: nat, n: int) -> bool {
    forall|ii: int, jj: int|
        0 <= ii <= jj <= n && (#[trigger] memo[cell_index(n, ii, jj)]) is Some ==> flats_of(
            memo[cell_index(n, ii, jj)]->0@,
        ) == cell_paths(s, mll, ii, jj) && models_of(memo[cell_index(n, ii, jj)]->0@)
            == cell_path_models(s, mll, ii, jj)
}

/// Enumerates every derivation of the cell `pos` of a filled matrix,
/// memoizing each cell's result so no sub-interval is enumerated twice.
fn enumerate(
    matrix: &Matrix,
    pos: Position,
    memo: &mut Vec<Option<TracebackPaths>>,
    Ghost(s): Ghost<Seq<char>>,
    Ghost(mll): Ghost<nat>,
) -> (paths: TracebackPaths)
    requires
        matrix_filled(*matrix, s, mll),
        pos.i <= pos.j <= matrix.spec_size(),
        old(memo)@.len() == (matrix.spec_size() + 1) * (matrix.spec_size() + 1),
        memo_ok(old(memo)@, s, mll, matrix.spec_size()),
    ensures
        final(memo)@.len() == old(memo)@.len(),
        memo_ok(final(memo)@, s, mll, matrix.spec_size()),
        flats_of(paths@) == cell_paths(s, mll, pos.i as int, pos.j as int),
        models_of(paths@) == cell_path_models(s, mll, pos.i as int, pos.j as int),
    decreases pos.j - pos.i,
{
    let ghost n = matrix.spec_size();
    let ghost i = pos.i as int;
    let ghost j = pos.j as int;
    if pos.is_diagonal() {
        let mut leaf: TracebackPath = Vec::new();
        leaf.push(TracebackPathElement::Single(pos));
        let mut paths: TracebackPaths = Vec::new();
        paths.push(leaf);
        proof {
            reveal_with_fuel(flat_of_path, 3);
            reveal_with_fuel(path_model, 3);
            assert(paths@[0]@ =~= seq![TracebackPathElement::Single(pos)]);
            assert(paths@[0]@.drop_first() =~= Seq::<TracebackPathElement>::empty());
            assert(flat_of_path(paths@[0]@) =~= seq![mk_pos(i, j)]);
            assert(flats_of(paths@) =~= cell_paths(s, mll, i, j));
            assert(path_model(paths@[0]@) =~= seq![PathModel::Single(mk_pos(i, j))]);
            assert(models_of(paths@) =~= cell_path_models(s, mll, i, j));
        }
        return paths;
    }
    let l = memo.len();
    let w = matrix.columns();
    proof {
        lemma_arena_index_fits(n + 1, i, j);
    }
    let idx = pos.i * w + pos.j;
    if let Some(cached) = &memo[idx] {
        proof {
            assert(memo@[cell_index(n, i, j)] is Some);
        }
        return copy_paths(cached);
    }
    let node = matrix.node(pos);
    let ghost ts = traces_spec(s, mll, i, j);
    proof {
        assert(crate::matrix_builder::cell_ok(s, mll, matrix.node_at(i, j), i, j));
        crate::matrix_builder::lemma_traces_shape(s, mll, i, j);
    }
    let mut out: TracebackPaths = Vec::new();
    let tlen = node.trace.len();
    let mut x: usize = 0;
    while x < tlen
        invariant
            matrix_filled(*matrix, s, mll),
            pos.i < pos.j <= matrix.spec_size(),
            n == matrix.spec_size(),
            i == pos.i as int,
            j == pos.j as int,
            ts == traces_spec(s, mll, i, j),
            node.trace@ == ts,
            tlen == ts.len(),
            x <= tlen,
            forall|y: int|
                0 <= y < ts.len() ==> crate::matrix_builder::trace_shape_ok(
                    #[trigger] ts[y],
                    i,
                    j,
                ),
            memo@.len() == (n + 1) * (n + 1),
            memo_ok(memo@, s, mll, n),
            flats_of(out@) == paths_over(s, mll, i, j, ts.take(x as int)),
            models_of(out@) == models_over(s, mll, i, j, ts.take(x as int)),
        decreases tlen - x,
    {
        let t = node.trace[x];
        proof {
            assert(ts[x as int] == t);
            assert(crate::matrix_builder::trace_shape_ok(t, i, j));
        }
        match t {
            TraceType::Complementary(q) => {
                let sub = enumerate(matrix, q, memo, Ghost(s), Ghost(mll));
                append_prefixed(pos, &sub, &mut out);
                proof {
                    assert(pos == mk_pos(i, j));
                    assert(paths_via(s, mll, i, j, t) == prefix_paths(
                        pos,
                        cell_paths(s, mll, q.i as int, q.j as int),
                    ));
                    assert(models_via(s, mll, i, j, t) == prefix_models(
                        pos,
                        cell_path_models(s, mll, q.i as int, q.j as int),
                    ));
                }
            },
            TraceType::Unpaired(q) => {
                let sub = enumerate(matrix, q, memo, Ghost(s), Ghost(mll));
                append_prefixed(pos, &sub, &mut out);
                proof {
                    assert(pos == mk_pos(i, j));
                    assert(paths_via(s, mll, i, j, t) == prefix_paths(
                        pos,
                        cell_paths(s, mll, q.i as int, q.j as int),
                    ));
                    assert(models_via(s, mll, i, j, t) == prefix_models(
                        pos,
                        cell_path_models(s, mll, q.i as int, q.j as int),
                    ));
                }
            },
            TraceType::Decomposition(q1, q2) => {
                proof {
                    let k = choose|k: int|
                        i + 2 <= k <= j - 2 && q1 == mk_pos(i, k) && q2 == mk_pos(k, j);
                    assert(q1.i as int == i && q1.j as int == k);
                    assert(q2.i as int == k && q2.j as int == j);
                }
                let left = enumerate(matrix, q1, memo, Ghost(s), Ghost(mll));
                let right = enumerate(matrix, q2, memo, Ghost(s), Ghost(mll));
                append_cross(pos, &left, &right, &mut out);
                proof {
                    assert(pos == mk_pos(i, j));
                    assert(paths_via(s, mll, i, j, t) == cross_paths(
                        pos,
                        cell_paths(s, mll, q1.i as int, q1.j as int),
                        cell_paths(s, mll, q2.i as int, q2.j as int),
                    ));
                    assert(models_via(s, mll, i, j, t) == cross_models(
                        pos,
                        cell_path_models(s, mll, q1.i as int, q1.j as int),
                        cell_path_models(s, mll, q2.i as int, q2.j as int),
                    ));
                }
            },
        }
        proof {
            assert(ts.take(x as int + 1) =~= ts.take(x as int) + seq![ts[x as int]]);
            lemma_paths_over_concat(s, mll, i, j, ts.take(x as int), seq![ts[x as int]]);
            assert(seq![ts[x as int]].drop_first() =~= Seq::<TraceType>::empty());
            reveal_with_fuel(paths_over, 3);
            assert(paths_over(s, mll, i, j, seq![ts[x as int]]) =~= paths_via(
                s,
                mll,
                i,
                j,
                ts[x as int],
            ));
            assert(flats_of(out@) =~= paths_over(s, mll, i, j, ts.take(x as int + 1)));
            lemma_models_over_concat(s, mll, i, j, ts.take(x as int), seq![ts[x as int]]);
            reveal_with_fuel(models_over, 3);
            assert(models_over(s, mll, i, j, seq![ts[x as int]]) =~= models_via(
                s,
                mll,
                i,
                j,
                ts[x as int],
            ));
            assert(models_of(out@) =~= models_over(s, mll, i, j, ts.take(x as int + 1)));
        }
        x += 1;
    }
    proof {
        assert(ts.take(ts.len() as int) =~= ts);
        assert(flats_of(out@) == cell_paths(s, mll, i, j));
        assert(models_of(out@) == cell_path_models(s, mll, i, j));
    }
    let stored = copy_paths(&out);
    memo.set(idx, Some(stored));
    proof {
        assert forall|ii2: int, jj2: int|
            0 <= ii2 <= jj2 <= n && (#[trigger] memo@[cell_index(n, ii2, jj2)]) is Some implies flats_of(
            memo@[cell_index(n, ii2, jj2)]->0@,
        ) == cell_paths(s, mll, ii2, jj2) && models_of(memo@[cell_index(n, ii2, jj2)]->0@)
            == cell_path_models(s, mll, ii2, jj2) by {
            lemma_arena_index_fits(n + 1, ii2, jj2);
            if !(ii2 == i && jj2 == j) {
                lemma_arena_index_injective(n + 1, ii2, jj2, i, j);
            }
        }
    }
    out
}

/// Builds the exhaustive, tie-aware traceback of a filled matrix.
pub struct NussinovTracebackPathsBuilder();

impl NussinovTracebackPathsBuilder {
    /// A fresh traceback pass.
    pub fn new() -> (b: NussinovTracebackPathsBuilder) {
        NussinovTracebackPathsBuilder()
    }

    /// Enumerates every optimal structural path of the filled matrix,
    /// rooted at the whole-sequence interval: exactly one path per
    /// derivation, in a stable order, with the nested decomposition
    /// structure pinned shape for shape.
    pub fn build(&self, matrix: &Matrix) -> (paths: TracebackPaths)
        requires
            matrix.is_filled(),
        ensures
            flats_of(paths@) == cell_paths(
                matrix.spec_seq(),
                matrix.spec_mll(),
                0,
                matrix.spec_size(),
            ),
            models_of(paths@) == cell_path_models(
                matrix.spec_seq(),
                matrix.spec_mll(),
                0,
                matrix.spec_size(),
            ),
    {
        let ghost n = matrix.spec_size();
        let ghost s = matrix.spec_seq();
        let ghost mll = matrix.spec_mll();
        let count = matrix.cell_count();
        let mut memo: Vec<Option<TracebackPaths>> = Vec::new();
        let mut x: usize = 0;
        while x < count
            invariant
                memo@.len() == x,
                x <= count,
                forall|t: int| 0 <= t < x ==> (#[trigger] memo@[t]) is None,
            decreases count - x,
        {
            memo.push(None);
            x += 1;
        }
        proof {
            assert forall|ii: int, jj: int|
                0 <= ii <= jj <= n && (#[trigger] memo@[cell_index(n, ii, jj)]) is Some implies flats_of(
                memo@[cell_index(n, ii, jj)]->0@,
            ) == cell_paths(s, mll, ii, jj) && models_of(memo@[cell_index(n, ii, jj)]->0@)
                == cell_path_models(s, mll, ii, jj) by {
                lemma_arena_index_fits(n + 1, ii, jj);
            }
        }
        let columns = matrix.columns();
        let root = Position::from(0, columns - 1);
        enumerate(matrix, root, &mut memo, Ghost(s), Ghost(mll))
    }
}

/// Every derivation through a trace list goes through one of its traces.
pub proof fn lemma_paths_over_member(
    s: Seq<char>,
    mll: nat,
    i: int,
    j: int,
    ts: Seq<TraceType>,
    f: Seq<Position>,
)
    requires
        paths_over(s, mll, i, j, ts).contains(f),
    ensures
        exists|x: int|
            0 <= x < ts.len() && paths_via(s, mll, i, j, #[trigger] ts[x]).contains(f),
    decreases ts.len(),
{
    let head = paths_via(s, mll, i, j, ts[0]);
    let rest = paths_over(s, mll, i, j, ts.drop_first());
    let y = choose|y: int|
        0 <= y < paths_over(s, mll, i, j, ts).len() && paths_over(s, mll, i, j, ts)[y] == f;
    if y < head.len() {
        assert(head[y] == f);
        assert(head.contains(f));
    } else {
        assert(rest[y - head.len()] == f);
        assert(rest.contains(f));
        lemma_paths_over_member(s, mll, i, j, ts.drop_first(), f);
        let x = choose|x: int|
            0 <= x < ts.drop_first().len() && paths_via(
                s,
                mll,
                i,
                j,
                #[trigger] ts.drop_first()[x],
            ).contains(f);
        assert(ts[x + 1] == ts.drop_first()[x]);
    }
}

/// Every member of the cross product pairs one left derivation with one
/// right derivation behind the cell's own position.
pub proof fn lemma_cross_paths_member(
    p: Position,
    ls: Seq<Seq<Position>>,
    rs: Seq<Seq<Position>>,
    f: Seq<Position>,
)
    requires
        cross_paths(p, ls, rs).contains(f),
    ensures
        exists|a: int, b: int|
            0 <= a < ls.len() && 0 <= b < rs.len() && f == seq![p] + #[trigger] ls[a]
                + #[trigger] rs[b],
    decreases ls.len(),
{
    let head = rs.map_values(|r: Seq<Position>| seq![p] + ls[0] + r);
    let rest = cross_paths(p, ls.drop_first(), rs);
    let y = choose|y: int|
        0 <= y < cross_paths(p, ls, rs).len() && cross_paths(p, ls, rs)[y] == f;
    if y < head.len() {
        assert(f == seq![p] + ls[0] + rs[y]);
    } else {
        assert(rest[y - head.len()] == f);
        assert(rest.contains(f));
        lemma_cross_paths_member(p, ls.drop_first(), rs, f);
        let (a, b) = choose|a: int, b: int|
            0 <= a < ls.drop_first().len() && 0 <= b < rs.len() && f == seq![p]
                + #[trigger] ls.drop_first()[a] + #[trigger] rs[b];
        assert(ls[a + 1] == ls.drop_first()[a]);
    }
}

/// Enumeration order is stable: for one filled matrix, every call of the
/// traceback returns the same list of derivations — the same shapes, so
/// also the same flattened views, in the same order.
pub proof fn lemma_build_deterministic(
    p1: Seq<TracebackPath>,
    p2: Seq<TracebackPath>,
    m: Matrix,
)
    requires
        models_of(p1) == cell_path_models(m.spec_seq(), m.spec_mll(), 0, m.spec_size()),
        models_of(p2) == cell_path_models(m.spec_seq(), m.spec_mll(), 0, m.spec_size()),
        flats_of(p1) == cell_paths(m.spec_seq(), m.spec_mll(), 0, m.spec_size()),
        flats_of(p2) == cell_paths(m.spec_seq(), m.spec_mll(), 0, m.spec_size()),
    ensures
        models_of(p1) == models_of(p2),
        flats_of(p1) == flats_of(p2),
        p1.len() == p2.len(),
{
    assert(p1.len() == models_of(p1).len());
    assert(p2.len() == models_of(p2).len());
}
} // verus!
