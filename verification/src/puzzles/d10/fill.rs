//! The areas of ground that pipes enclose: the open tiles of a picture are
//! gathered into areas of tiles that touch, and the areas that do not reach the
//! edge are counted.
use super::tile_set::{
    before, count, holds, is_first, lemma_rows_bound, lemma_rows_none, lemma_rows_update,
    with_flag, TileSet,
};
use crate::grids::ByteGrid;
use vstd::prelude::*;

verus! {

/// The byte that stands for ground.
pub const GROUND: u8 = 46;

/// The byte that stands for the filler between the tiles.
pub const FILLER: u8 = 42;

/// The greatest side of a picture.
pub const MAX_SIDE: usize = 46_340;

/// The rows form a square of at least one and not too many tiles a side.
pub open spec fn is_field(e: Seq<Seq<u8>>) -> bool {
    &&& 1 <= e.len() <= MAX_SIDE
    &&& forall|y: int| 0 <= y < e.len() ==> (#[trigger] e[y]).len() == e.len()
}

/// Whether the flags are those of a picture of the same shape.
pub open spec fn same_shape(e: Seq<Seq<u8>>, f: Seq<Seq<bool>>) -> bool {
    &&& f.len() == e.len()
    &&& forall|y: int| 0 <= y < f.len() ==> (#[trigger] f[y]).len() == e.len()
}

/// Whether a tile is open: ground or filler.
pub open spec fn is_open(c: u8) -> bool {
    c == GROUND || c == FILLER
}

/// For each tile, whether it is open.
pub open spec fn open_flags(e: Seq<Seq<u8>>) -> Seq<Seq<bool>> {
    Seq::new(e.len(), |y: int| Seq::new(e[y].len(), |x: int| is_open(e[y][x])))
}

/// The tile next to `p` in direction `d`: north, south, east, west.
pub open spec fn beside(p: (int, int), d: int) -> (int, int) {
    if d == 0 {
        (p.0 - 1, p.1)
    } else if d == 1 {
        (p.0 + 1, p.1)
    } else if d == 2 {
        (p.0, p.1 + 1)
    } else {
        (p.0, p.1 - 1)
    }
}

/// Whether the tile lies on the edge of a picture of side `n`.
pub open spec fn on_edge(n: int, p: (int, int)) -> bool {
    p.0 == 0 || p.1 == 0 || p.0 == n - 1 || p.1 == n - 1
}

/// Whether `q` is beside `p`.
pub open spec fn touches(p: (int, int), q: (int, int)) -> bool {
    exists|d: int| 0 <= d < 4 && q == #[trigger] beside(p, d)
}

/// Whether the tiles of the path are all in the set, each beside the one
/// before it.
pub open spec fn linked(f: Seq<Seq<bool>>, path: Seq<(int, int)>) -> bool {
    &&& path.len() >= 1
    &&& forall|i: int| 0 <= i < path.len() ==> holds(f, #[trigger] path[i])
    &&& forall|i: int| 1 <= i < path.len() ==> touches(path[i - 1], #[trigger] path[i])
}

/// Whether a path through the set leads from `seed` to `c`.
pub open spec fn reaches(f: Seq<Seq<bool>>, seed: (int, int), c: (int, int)) -> bool {
    exists|path: Seq<(int, int)>| #[trigger]
        linked(f, path) && path[0] == seed && path.last() == c
}

/// The set without the tiles that `seed` reaches.
pub open spec fn rest(f: Seq<Seq<bool>>, seed: (int, int)) -> Seq<Seq<bool>> {
    Seq::new(
        f.len(),
        |y: int| Seq::new(f[y].len(), |x: int| f[y][x] && !reaches(f, seed, (y, x))),
    )
}

/// For each tile, whether it is ground that `seed` reaches and not `seed`
/// itself.
pub open spec fn ground_reached(e: Seq<Seq<u8>>, f: Seq<Seq<bool>>, seed: (int, int)) -> Seq<
    Seq<bool>,
> {
    Seq::new(
        f.len(),
        |y: int|
            Seq::new(
                f[y].len(),
                |x: int| reaches(f, seed, (y, x)) && (y, x) != seed && e[y][x] == GROUND,
            ),
    )
}

/// Whether no tile that `seed` reaches, but for `seed` itself, lies on the
/// edge.
pub open spec fn is_inside(f: Seq<Seq<bool>>, seed: (int, int)) -> bool {
    forall|c: (int, int)| #[trigger] reaches(f, seed, c) && c != seed ==> !on_edge(f.len() as int, c)
}

/// What the area of `seed` adds to the enclosed ground: its ground tiles, but
/// for `seed` itself, if it is inside.
pub open spec fn area_of(e: Seq<Seq<u8>>, f: Seq<Seq<bool>>, seed: (int, int)) -> int {
    if is_inside(f, seed) {
        count(ground_reached(e, f, seed))
    } else {
        0
    }
}

/// The first tile of the set, row by row.
pub open spec fn first_of(f: Seq<Seq<bool>>) -> (int, int) {
    choose|p: (int, int)| is_first(f, p)
}

/// The enclosed ground of the areas of the set, taken one after the other
/// from the first tile of what is left of the set; no more than `fuel` areas
/// are taken.
pub open spec fn enclosed(e: Seq<Seq<u8>>, f: Seq<Seq<bool>>, fuel: nat) -> int
    decreases fuel,
{
    if fuel == 0 || count(f) <= 0 {
        0
    } else {
        area_of(e, f, first_of(f)) + enclosed(e, rest(f, first_of(f)), (fuel - 1) as nat)
    }
}

/// Whether the tile was in the set and has been taken out.
pub open spec fn gone(f: Seq<Seq<bool>>, left: Seq<Seq<bool>>, p: (int, int)) -> bool {
    holds(f, p) && !holds(left, p)
}

/// For each tile, whether it is ground that has been taken out and not
/// `seed`.
pub open spec fn ground_gone(
    e: Seq<Seq<u8>>,
    f: Seq<Seq<bool>>,
    left: Seq<Seq<bool>>,
    seed: (int, int),
) -> Seq<Seq<bool>> {
    Seq::new(
        f.len(),
        |y: int|
            Seq::new(
                f[y].len(),
                |x: int| gone(f, left, (y, x)) && (y, x) != seed && e[y][x] == GROUND,
            ),
    )
}

/// Whether the tile waits in the list.
pub open spec fn waiting(list: Seq<(usize, usize)>, p: (int, int)) -> bool {
    exists|i: int| 0 <= i < list.len() && (#[trigger] list[i]).0 == p.0 && list[i].1 == p.1
}

/// Only one tile is the first of a set.
pub proof fn lemma_first_is_one(f: Seq<Seq<bool>>, p: (int, int))
    requires
        is_first(f, p),
    ensures
        first_of(f) == p,
{
    let q = first_of(f);
    assert(is_first(f, q));
    assert(holds(f, q));
    assert(holds(f, p));
    assert(!before(q, p) && !before(p, q));
}

/// Where every tile taken out that does not wait has its neighbours of the
/// set taken out too, every tile that `seed` reaches has been taken out.
pub proof fn lemma_closed(
    f: Seq<Seq<bool>>,
    left: Seq<Seq<bool>>,
    seed: (int, int),
    path: Seq<(int, int)>,
    i: int,
)
    requires
        linked(f, path),
        path[0] == seed,
        gone(f, left, seed),
        forall|p: (int, int), d: int|
            gone(f, left, p) && 0 <= d < 4 && holds(f, #[trigger] beside(p, d)) ==> gone(
                f,
                left,
                beside(p, d),
            ),
        0 <= i < path.len(),
    ensures
        gone(f, left, path[i]),
    decreases i,
{
    if i > 0 {
        lemma_closed(f, left, seed, path, i - 1);
        assert(touches(path[i - 1], path[i]));
        let d = choose|d: int| 0 <= d < 4 && path[i] == #[trigger] beside(path[i - 1], d);
        assert(holds(f, path[i]));
        assert(path[i] == beside(path[i - 1], d));
    }
}

/// A path that is longer by one tile of the set beside its end is a path.
pub proof fn lemma_longer(f: Seq<Seq<bool>>, seed: (int, int), c: (int, int), d: int)
    requires
        reaches(f, seed, c),
        0 <= d < 4,
        holds(f, beside(c, d)),
    ensures
        reaches(f, seed, beside(c, d)),
{
    let path = choose|path: Seq<(int, int)>| #[trigger]
        linked(f, path) && path[0] == seed && path.last() == c;
    let longer = path.push(beside(c, d));
    assert forall|i: int| 0 <= i < longer.len() implies holds(f, #[trigger] longer[i]) by {
        if i < path.len() {
            assert(longer[i] == path[i]);
        }
    }
    assert forall|i: int| 1 <= i < longer.len() implies touches(
        longer[i - 1],
        #[trigger] longer[i],
    ) by {
        if i < path.len() {
            assert(touches(path[i - 1], path[i]));
            assert(longer[i] == path[i] && longer[i - 1] == path[i - 1]);
        } else {
            assert(longer[i] == beside(longer[i - 1], d));
        }
    }
    assert(linked(f, longer) && longer[0] == seed && longer.last() == beside(c, d));
}

/// A tile of the set reaches itself.
pub proof fn lemma_reaches_itself(f: Seq<Seq<bool>>, seed: (int, int))
    requires
        holds(f, seed),
    ensures
        reaches(f, seed, seed),
{
    let path = seq![seed];
    assert(linked(f, path) && path[0] == seed && path.last() == seed);
}

/// The tile beside a tile in a direction, if it is in the picture.
fn neighbour(n: usize, pos: (usize, usize), d: usize) -> (r: Option<(usize, usize)>)
    requires
        d < 4,
        pos.0 < n,
        pos.1 < n,
    ensures
        match r {
            Some(q) => (q.0 as int, q.1 as int) == beside((pos.0 as int, pos.1 as int), d as int)
                && q.0 < n && q.1 < n,
            None => {
                let q = beside((pos.0 as int, pos.1 as int), d as int);
                !(0 <= q.0 < n && 0 <= q.1 < n)
            },
        },
{
    if d == 0 {
        if pos.0 > 0 {
            Some((pos.0 - 1, pos.1))
        } else {
            None
        }
    } else if d == 1 {
        if pos.0 + 1 < n {
            Some((pos.0 + 1, pos.1))
        } else {
            None
        }
    } else if d == 2 {
        if pos.1 + 1 < n {
            Some((pos.0, pos.1 + 1))
        } else {
            None
        }
    } else {
        if pos.1 > 0 {
            Some((pos.0, pos.1 - 1))
        } else {
            None
        }
    }
}

/// What taking a tile out of what is left does to the ground taken out.
proof fn lemma_ground_gone(
    e: Seq<Seq<u8>>,
    f: Seq<Seq<bool>>,
    left: Seq<Seq<bool>>,
    seed: (int, int),
    q: (int, int),
)
    requires
        same_shape(e, f),
        same_shape(e, left),
        holds(left, q),
        holds(f, q),
        q != seed,
    ensures
        ground_gone(e, f, with_flag(left, q, false), seed) == with_flag(
            ground_gone(e, f, left, seed),
            q,
            e[q.0][q.1] == GROUND,
        ),
        !ground_gone(e, f, left, seed)[q.0][q.1],
{
    let a = ground_gone(e, f, with_flag(left, q, false), seed);
    let b = with_flag(ground_gone(e, f, left, seed), q, e[q.0][q.1] == GROUND);
    assert(a.len() == b.len());
    assert forall|y: int| 0 <= y < a.len() implies a[y] =~= b[y] by {
        assert(left[y].len() == e.len());
        assert forall|x: int| 0 <= x < a[y].len() implies a[y][x] == b[y][x] by {
            let p = (y, x);
            if p != q {
                assert(holds(with_flag(left, q, false), p) == holds(left, p));
            }
        }
    }
    assert(a =~= b);
}

/// Takes the area of the first tile of the set out of the set: the number of
/// its ground tiles, but for that first tile, and whether it is inside.
#[verifier::rlimit(80)]
fn fill_from(grid: &ByteGrid, unvisited: &mut TileSet) -> (r: (usize, bool))
    requires
        is_field(grid@),
        old(unvisited).wf(),
        old(unvisited).shape() == (grid@.len() as int, grid@.len() as int),
        count(old(unvisited)@) > 0,
    ensures
        final(unvisited).wf(),
        final(unvisited).shape() == old(unvisited).shape(),
        final(unvisited)@ == rest(old(unvisited)@, first_of(old(unvisited)@)),
        r.0 == count(ground_reached(grid@, old(unvisited)@, first_of(old(unvisited)@))),
        r.1 == is_inside(old(unvisited)@, first_of(old(unvisited)@)),
        r.0 + count(final(unvisited)@) <= count(old(unvisited)@) - 1,
{
    let ghost e = grid@;
    let ghost f = unvisited@;
    let n = grid.height();
    let start_len = unvisited.len();
    proof {
        unvisited.lemma_shape();
    }
    let seed = unvisited.pop();
    let ghost sd = (seed.0 as int, seed.1 as int);
    proof {
        lemma_first_is_one(f, sd);
        lemma_reaches_itself(f, sd);
        unvisited.lemma_shape();
        let none = ground_gone(e, f, unvisited@, sd);
        assert forall|y: int, x: int| 0 <= y < none.len() && 0 <= x < none[y].len() implies !#[trigger] none[y][x] by {
            let p = (y, x);
            if p != sd {
                assert(holds(unvisited@, p) == holds(f, p));
            }
        }
        lemma_rows_none(none, none.len() as int);
        lemma_rows_none(unvisited@, n as int);
    }
    let mut frontier: Vec<(usize, usize)> = Vec::new();
    frontier.push(seed);
    let mut inside = true;
    let mut n_dots: usize = 0;
    proof {
        assert(frontier@[0] == seed);
        assert(waiting(frontier@, sd));
    }
    while frontier.len() > 0
        invariant
            e == grid@,
            is_field(e),
            n == e.len(),
            unvisited.wf(),
            unvisited.shape() == (n as int, n as int),
            same_shape(e, f),
            same_shape(e, unvisited@),
            holds(f, sd),
            forall|p: (int, int)| #[trigger] holds(unvisited@, p) ==> holds(f, p),
            gone(f, unvisited@, sd),
            forall|p: (int, int)| #[trigger] gone(f, unvisited@, p) ==> reaches(f, sd, p),
            forall|p: (int, int), d: int|
                gone(f, unvisited@, p) && !waiting(frontier@, p) && 0 <= d < 4 && holds(
                    f,
                    #[trigger] beside(p, d),
                ) ==> gone(f, unvisited@, beside(p, d)),
            forall|i: int|
                0 <= i < frontier@.len() ==> (#[trigger] frontier@[i]).0 < n && frontier@[i].1 < n
                    && gone(f, unvisited@, (frontier@[i].0 as int, frontier@[i].1 as int)),
            n_dots == count(ground_gone(e, f, unvisited@, sd)),
            n_dots + count(unvisited@) <= count(f) - 1,
            inside == (forall|p: (int, int)| #[trigger]
                gone(f, unvisited@, p) && p != sd ==> !on_edge(n as int, p)),
            count(f) <= usize::MAX,
            count(unvisited@) >= 0,
        decreases 2 * count(unvisited@) + frontier@.len(),
    {
        let ghost waiting_before = frontier@;
        let ghost measure = 2 * count(unvisited@) + frontier@.len();
        let tile = frontier.pop().unwrap();
        let ghost c = (tile.0 as int, tile.1 as int);
        proof {
            assert(waiting_before[waiting_before.len() - 1] == tile);
            assert forall|p: (int, int)| waiting(waiting_before, p) && p != c implies waiting(
                frontier@,
                p,
            ) by {
                let i = choose|i: int|
                    0 <= i < waiting_before.len() && (#[trigger] waiting_before[i]).0 == p.0
                        && waiting_before[i].1 == p.1;
                assert(frontier@[i] == waiting_before[i]);
            }
        }
        let mut d: usize = 0;
        while d < 4
            invariant
                d <= 4,
                e == grid@,
                is_field(e),
                n == e.len(),
                tile.0 < n,
                tile.1 < n,
                c == (tile.0 as int, tile.1 as int),
                unvisited.wf(),
                unvisited.shape() == (n as int, n as int),
                same_shape(e, f),
                same_shape(e, unvisited@),
                holds(f, sd),
                forall|p: (int, int)| #[trigger] holds(unvisited@, p) ==> holds(f, p),
                gone(f, unvisited@, sd),
                gone(f, unvisited@, c),
                forall|p: (int, int)| #[trigger] gone(f, unvisited@, p) ==> reaches(f, sd, p),
                forall|p: (int, int), z: int|
                    gone(f, unvisited@, p) && !waiting(frontier@, p) && p != c && 0 <= z < 4 && holds(
                        f,
                        #[trigger] beside(p, z),
                    ) ==> gone(f, unvisited@, beside(p, z)),
                forall|z: int|
                    0 <= z < d && holds(f, #[trigger] beside(c, z)) ==> gone(
                        f,
                        unvisited@,
                        beside(c, z),
                    ),
                forall|i: int|
                    0 <= i < frontier@.len() ==> (#[trigger] frontier@[i]).0 < n && frontier@[i].1 < n
                        && gone(f, unvisited@, (frontier@[i].0 as int, frontier@[i].1 as int)),
                n_dots == count(ground_gone(e, f, unvisited@, sd)),
                n_dots + count(unvisited@) <= count(f) - 1,
                count(unvisited@) >= 0,
                inside == (forall|p: (int, int)| #[trigger]
                    gone(f, unvisited@, p) && p != sd ==> !on_edge(n as int, p)),
                count(f) <= usize::MAX,
                2 * count(unvisited@) + frontier@.len() + 1 <= measure,
            decreases 4 - d,
        {
            match neighbour(n, tile, d) {
                None => {},
                Some(pos) => {
                    let ghost q = (pos.0 as int, pos.1 as int);
                    let ghost left = unvisited@;
                    let ghost list = frontier@;
                    if unvisited.contains(&pos) {
                        let c_tile = grid.get(pos.0, pos.1);
                        proof {
                            assert(holds(f, q));
                            assert(q != sd);
                            lemma_longer(f, sd, c, d as int);
                            lemma_ground_gone(e, f, left, sd, q);
                            lemma_rows_update(
                                ground_gone(e, f, left, sd),
                                q,
                                e[q.0][q.1] == GROUND,
                                e.len() as int,
                            );
                        }
                        frontier.push(pos);
                        unvisited.remove(&pos);
                        if c_tile == GROUND {
                            n_dots += 1;
                        }
                        if pos.0 == 0 || pos.1 == 0 || pos.0 == n - 1 || pos.1 == n - 1 {
                            inside = false;
                        }
                        proof {
                            unvisited.lemma_shape();
                            lemma_rows_none(unvisited@, n as int);
                            let now = unvisited@;
                            assert forall|p: (int, int)| holds(now, p) == (holds(left, p) && p != q) by {}
                            assert forall|p: (int, int)| gone(f, now, p) == (gone(f, left, p) || p
                                == q) by {}
                            assert(frontier@[list.len() as int] == pos);
                            assert(waiting(frontier@, q));
                            assert forall|p: (int, int)| waiting(list, p) implies waiting(
                                frontier@,
                                p,
                            ) by {
                                let i = choose|i: int|
                                    0 <= i < list.len() && (#[trigger] list[i]).0 == p.0 && list[i].1
                                        == p.1;
                                assert(frontier@[i] == list[i]);
                            }
                            assert forall|p: (int, int)| waiting(frontier@, p) && p
                                != q implies waiting(list, p) by {
                                let i = choose|i: int|
                                    0 <= i < frontier@.len() && (#[trigger] frontier@[i]).0 == p.0
                                        && frontier@[i].1 == p.1;
                                assert(list[i] == frontier@[i]);
                            }
                            assert forall|i: int| 0 <= i < frontier@.len() implies (
                            #[trigger] frontier@[i]).0 < n && frontier@[i].1 < n && gone(
                                f,
                                now,
                                (frontier@[i].0 as int, frontier@[i].1 as int),
                            ) by {
                                if i < list.len() {
                                    assert(frontier@[i] == list[i]);
                                    assert(gone(f, left, (list[i].0 as int, list[i].1 as int)));
                                }
                            }
                            assert forall|p: (int, int)| #[trigger] gone(f, now, p) implies reaches(
                                f,
                                sd,
                                p,
                            ) by {
                                if p != q {
                                    assert(gone(f, left, p));
                                }
                            }
                            assert forall|p: (int, int), z: int|
                                gone(f, now, p) && !waiting(frontier@, p) && p != c && 0 <= z < 4
                                    && holds(f, #[trigger] beside(p, z)) implies gone(
                                f,
                                now,
                                beside(p, z),
                            ) by {
                                assert(p != q);
                                assert(gone(f, left, p));
                                assert(!waiting(list, p));
                                assert(gone(f, left, beside(p, z)));
                            }
                            assert forall|z: int|
                                0 <= z < d + 1 && holds(f, #[trigger] beside(c, z)) implies gone(
                                f,
                                now,
                                beside(c, z),
                            ) by {
                                if z < d {
                                    assert(gone(f, left, beside(c, z)));
                                }
                            }
                        }
                    } else {
                        proof {
                            assert(!holds(left, q));
                        }
                    }
                },
            }
            d += 1;
        }
        proof {
            assert forall|p: (int, int), z: int|
                gone(f, unvisited@, p) && !waiting(frontier@, p) && 0 <= z < 4 && holds(
                    f,
                    #[trigger] beside(p, z),
                ) implies gone(f, unvisited@, beside(p, z)) by {
                if p == c {
                    assert(gone(f, unvisited@, beside(c, z)));
                }
            }
        }
    }
    proof {
        let left = unvisited@;
        assert forall|p: (int, int)| reaches(f, sd, p) implies gone(f, left, p) by {
            let path = choose|path: Seq<(int, int)>| #[trigger]
                linked(f, path) && path[0] == sd && path.last() == p;
            assert forall|a: (int, int), z: int|
                gone(f, left, a) && 0 <= z < 4 && holds(f, #[trigger] beside(a, z)) implies gone(
                f,
                left,
                beside(a, z),
            ) by {
                assert(!waiting(frontier@, a));
            }
            lemma_closed(f, left, sd, path, path.len() - 1);
        }
        let r = rest(f, sd);
        assert(left.len() == r.len());
        assert forall|y: int| 0 <= y < left.len() implies left[y] =~= r[y] by {
            assert(left[y].len() == e.len() && f[y].len() == e.len());
            assert forall|x: int| 0 <= x < left[y].len() implies left[y][x] == r[y][x] by {
                let p = (y, x);
                if reaches(f, sd, p) {
                    assert(gone(f, left, p));
                } else if f[y][x] {
                    if !left[y][x] {
                        assert(gone(f, left, p));
                    }
                } else {
                    if left[y][x] {
                        assert(holds(left, p));
                    }
                }
            }
        }
        assert(left =~= r);
        let a = ground_gone(e, f, left, sd);
        let b = ground_reached(e, f, sd);
        assert forall|y: int| 0 <= y < a.len() implies a[y] =~= b[y] by {
            assert forall|x: int| 0 <= x < a[y].len() implies a[y][x] == b[y][x] by {
                let p = (y, x);
                if gone(f, left, p) {
                    assert(reaches(f, sd, p));
                }
            }
        }
        assert(a =~= b);
        if inside {
            assert forall|p: (int, int)| #[trigger] reaches(f, sd, p) && p != sd implies !on_edge(
                f.len() as int,
                p,
            ) by {
                assert(gone(f, left, p));
            }
        } else {
            let p = choose|p: (int, int)| #[trigger]
                gone(f, left, p) && p != sd && on_edge(n as int, p);
            assert(reaches(f, sd, p));
        }
    }
    (n_dots, inside)
}

/// The number of ground tiles of a picture that lie in areas of open tiles
/// which do not reach the edge.
pub fn enclosed_ground(grid: &ByteGrid) -> (r: u32)
    requires
        is_field(grid@),
    ensures
        r == enclosed(grid@, open_flags(grid@), (grid@.len() * grid@.len()) as nat),
{
    let ghost e = grid@;
    let n = grid.height();
    proof {
        assert(n * n <= MAX_SIDE * MAX_SIDE) by (nonlinear_arith)
            requires
                n <= MAX_SIDE,
        ;
    }
    let mut unvisited = TileSet::new((n, n));
    let mut y: usize = 0;
    proof {
        unvisited.lemma_shape();
        assert forall|a: int, b: int| 0 <= a < n && 0 <= b < n implies !#[trigger] unvisited@[a][b] by {
            assert(!holds(unvisited@, (a, b)));
        }
    }
    while y < n
        invariant
            y <= n,
            e == grid@,
            is_field(e),
            n == e.len(),
            unvisited.wf(),
            unvisited.shape() == (n as int, n as int),
            same_shape(e, unvisited@),
            forall|a: int, b: int|
                0 <= a < n && 0 <= b < n ==> (#[trigger] unvisited@[a][b]) == (a < y && is_open(
                    e[a][b],
                )),
        decreases n - y,
    {
        let mut x: usize = 0;
        while x < n
            invariant
                x <= n,
                y < n,
                e == grid@,
                is_field(e),
                n == e.len(),
                unvisited.wf(),
                unvisited.shape() == (n as int, n as int),
                same_shape(e, unvisited@),
                forall|a: int, b: int|
                    0 <= a < n && 0 <= b < n ==> (#[trigger] unvisited@[a][b]) == ((a < y || (a == y
                        && b < x)) && is_open(e[a][b])),
            decreases n - x,
        {
            let c = grid.get(y, x);
            if c == GROUND || c == FILLER {
                unvisited.push((y, x));
                proof {
                    unvisited.lemma_shape();
                }
            }
            x += 1;
        }
        y += 1;
    }
    let ghost f0 = unvisited@;
    let ghost fuel0 = (n * n) as nat;
    proof {
        assert forall|a: int| 0 <= a < f0.len() implies f0[a] =~= open_flags(e)[a] by {}
        assert(f0 =~= open_flags(e));
        lemma_rows_bound(f0, n as int, n as int);
    }
    let mut total: usize = 0;
    let ghost mut fuel: nat = fuel0;
    while unvisited.len() > 0
        invariant
            e == grid@,
            is_field(e),
            n == e.len(),
            unvisited.wf(),
            unvisited.shape() == (n as int, n as int),
            fuel >= count(unvisited@),
            total + count(unvisited@) <= count(f0),
            count(f0) <= n * n,
            n * n <= MAX_SIDE * MAX_SIDE,
            total + enclosed(e, unvisited@, fuel) == enclosed(e, f0, fuel0),
        decreases count(unvisited@),
    {
        let ghost f = unvisited@;
        proof {
            assert(enclosed(e, f, fuel) == area_of(e, f, first_of(f)) + enclosed(
                e,
                rest(f, first_of(f)),
                (fuel - 1) as nat,
            ));
        }
        let (n_dots, inside) = fill_from(grid, &mut unvisited);
        proof {
            unvisited.lemma_shape();
            lemma_rows_none(unvisited@, n as int);
        }
        if inside {
            total += n_dots;
        }
        proof {
            fuel = (fuel - 1) as nat;
        }
    }
    total as u32
}

} // verus!
