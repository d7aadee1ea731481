use vstd::prelude::*;

use crate::game::{Direction, GridConfig, SolverError};
use crate::snake::{spec_mhtn, spec_to_direction, step_adjacent, Position, Tail};

verus! {

/// The coordinate pair a position is keyed by in a hash set.
pub open spec fn pos_key(p: Position) -> (i64, i64) {
    (p.x, p.y)
}

/// The set of coordinate pairs occupied by the positions of `s`.
pub open spec fn occupied_keys(s: Seq<Position>) -> Set<(i64, i64)> {
    Set::new(|k: (i64, i64)| exists|i: int| 0 <= i < s.len() && pos_key(#[trigger] s[i]) == k)
}

/// A position inside the playing field of `cfg`.
pub open spec fn valid_pos(p: Position, cfg: GridConfig) -> bool {
    0 <= p.x < cfg.x_bound() && 0 <= p.y < cfg.y_bound()
}

/// A coordinate pair inside the playing field of `cfg`.
spec fn key_in_field(k: (i64, i64), cfg: GridConfig) -> bool {
    0 <= k.0 < cfg.x_bound() && 0 <= k.1 < cfg.y_bound()
}

/// A coordinate pair on the lattice of cells reachable from `start` by
/// steps of size `cs`.
pub open spec fn key_on_lattice(k: (i64, i64), start: Position, cs: int) -> bool {
    k.0 as int % cs == start.x as int % cs && k.1 as int % cs == start.y as int % cs
}

/// A set of grid positions, backed by a hash set keyed by the raw
/// coordinate pair. Its mathematical contents are tracked abstractly
/// by `pos_set_contents`.
#[verifier::external_body]
pub struct PosSet {
    set: hashbrown::HashSet<(i64, i64)>,
}

/// The mathematical contents of a `PosSet`.
pub uninterp spec fn pos_set_contents(s: PosSet) -> Set<(i64, i64)>;

/// Relies on hashbrown::HashSet::with_capacity: a fresh set is empty.
#[verifier::external_body]
fn pos_set_with_capacity(capacity: usize) -> (s: PosSet)
    ensures
        pos_set_contents(s) == Set::<(i64, i64)>::empty(),
{
    PosSet { set: hashbrown::HashSet::with_capacity(capacity) }
}

/// Relies on hashbrown::HashSet::insert with an integer-pair key:
/// afterwards the set holds exactly the old elements plus the new one.
#[verifier::external_body]
fn pos_set_insert(s: &mut PosSet, k: (i64, i64))
    ensures
        pos_set_contents(*final(s)) == pos_set_contents(*old(s)).insert(k),
{
    s.set.insert(k);
}

/// Relies on hashbrown::HashSet::contains with an integer-pair key.
#[verifier::external_body]
fn pos_set_contains(s: &PosSet, k: (i64, i64)) -> (r: bool)
    ensures
        r == pos_set_contents(*s).contains(k),
{
    s.set.contains(&k)
}

/// Relies on hashbrown::HashSet::clear: afterwards the set is empty.
#[verifier::external_body]
fn pos_set_clear(s: &mut PosSet)
    ensures
        pos_set_contents(*final(s)) == Set::<(i64, i64)>::empty(),
{
    s.set.clear();
}

/// One explored cell: its position, a back-pointer to the parent record in
/// the dense arena (an index, not a pointer), its own arena index, and cost
/// accounting; `f = g + h`.
#[derive(Debug, Clone, Copy)]
pub struct Node {
    pos: Position,
    parent_id: Option<usize>,
    id: usize,
    g_cost: i64,
    h_cost: i64,
    f_cost: i64,
}

/// The parent index of a record, `-1` for the root.
spec fn parent_idx(n: Node) -> int {
    match n.parent_id {
        Some(p) => p as int,
        None => -1,
    }
}

/// Number of steps from arena index `i` back to the root of its chain.
spec fn chain_len(arena: Seq<Node>, i: int) -> nat
    decreases i,
{
    if 0 <= i < arena.len() {
        match arena[i].parent_id {
            None => 0,
            Some(p) => if p < i {
                1 + chain_len(arena, p as int)
            } else {
                0
            },
        }
    } else {
        0
    }
}

/// Every record on the chain from `i` lies inside the field, and every one
/// except the root avoids the obstacle set.
spec fn chain_ok(arena: Seq<Node>, i: int, obs: Set<(i64, i64)>, cfg: GridConfig) -> bool
    decreases i,
{
    &&& 0 <= i < arena.len()
    &&& valid_pos(arena[i].pos, cfg)
    &&& match arena[i].parent_id {
        None => true,
        Some(p) => p < i && !obs.contains(pos_key(arena[i].pos)) && chain_ok(
            arena,
            p as int,
            obs,
            cfg,
        ),
    }
}

/// A well-formed arena: record ids equal their indices, the root is the
/// record of `start`, and every later record points back to an earlier,
/// step-adjacent parent.
spec fn arena_wf(arena: Seq<Node>, start: Position, cfg: GridConfig) -> bool {
    &&& arena.len() >= 1
    &&& arena[0].pos == start
    &&& arena[0].parent_id is None
    &&& forall|i: int| 0 <= i < arena.len() ==> (#[trigger] arena[i]).id == i
    &&& forall|i: int|
        1 <= i < arena.len() ==> (#[trigger] arena[i]).parent_id is Some && 0 <= parent_idx(
            arena[i],
        ) < i && step_adjacent(arena[parent_idx(arena[i])].pos, arena[i].pos, cfg.cell_size as int)
}

/// Chains only mention earlier records, so extending the arena changes
/// neither their length nor their validity.
proof fn lemma_chain_stable(
    a1: Seq<Node>,
    a2: Seq<Node>,
    i: int,
    obs: Set<(i64, i64)>,
    cfg: GridConfig,
)
    requires
        a1.len() <= a2.len(),
        forall|j: int| 0 <= j < a1.len() ==> a1[j] == a2[j],
        0 <= i < a1.len(),
    ensures
        chain_len(a2, i) == chain_len(a1, i),
        chain_ok(a1, i, obs, cfg) ==> chain_ok(a2, i, obs, cfg),
    decreases i,
{
    match a1[i].parent_id {
        None => {},
        Some(p) => {
            if p < i {
                lemma_chain_stable(a1, a2, p as int, obs, cfg);
            }
        },
    }
}

/// Whether some record in the open list sits at position `q`.
spec fn in_open(open: Seq<Node>, q: Position) -> bool {
    exists|j: int| 0 <= j < open.len() && (#[trigger] open[j]).pos == q
}

/// A well-formed open record: it mirrors its arena record, its chain is
/// valid, its g cost is the chain length in steps scaled by the cell size,
/// and its heuristic is the Manhattan distance to the goal (the root record
/// alone carries zero costs).
spec fn open_node_ok(
    n: Node,
    arena: Seq<Node>,
    start: Position,
    goal: Position,
    obs: Set<(i64, i64)>,
    cfg: GridConfig,
) -> bool {
    &&& 0 <= n.id < arena.len()
    &&& arena[n.id as int].pos == n.pos
    &&& arena[n.id as int].parent_id == n.parent_id
    &&& chain_ok(arena, n.id as int, obs, cfg)
    &&& key_on_lattice(pos_key(n.pos), start, cfg.cell_size as int)
    &&& n.g_cost == cfg.cell_size * chain_len(arena, n.id as int)
    &&& (n.id == 0 ==> n.g_cost == 0 && n.h_cost == 0)
    &&& (n.id != 0 ==> n.h_cost == spec_mhtn(n.pos, goal))
    &&& n.f_cost == n.g_cost + n.h_cost
}

/// Closed-set bookkeeping: finitely many keys, all inside the field and on
/// the start lattice, and the goal never among them.
spec fn closed_ok(
    closed: Set<(i64, i64)>,
    start: Position,
    goal: Position,
    cfg: GridConfig,
) -> bool {
    &&& closed.finite()
    &&& forall|k: (i64, i64)|
        #[trigger] closed.contains(k) ==> key_in_field(k, cfg) && key_on_lattice(
            k,
            start,
            cfg.cell_size as int,
        )
    &&& !closed.contains(pos_key(goal))
}

/// The frontier property: every free in-field neighbor of a closed cell is
/// itself closed or waiting in the open list, and the start cell itself is
/// closed or open. When the open list is exhausted, the closed set is
/// therefore closed under free steps.
spec fn frontier_ok(
    closed: Set<(i64, i64)>,
    open: Seq<Node>,
    start: Position,
    obs: Set<(i64, i64)>,
    cs: int,
    cfg: GridConfig,
) -> bool {
    &&& closed.contains(pos_key(start)) || in_open(open, start)
    &&& forall|p: Position, q: Position|
        #![trigger closed.contains(pos_key(p)), step_adjacent(p, q, cs)]
        closed.contains(pos_key(p)) && step_adjacent(p, q, cs) && valid_pos(q, cfg)
            && !obs.contains(pos_key(q)) ==> closed.contains(pos_key(q)) || in_open(open, q)
}

/// A walk across the field: it starts at `start`, ends at `goal`, makes
/// only legal single steps, stays inside the field, and avoids the obstacle
/// set everywhere except possibly at its first cell.
pub open spec fn is_free_walk(
    w: Seq<Position>,
    start: Position,
    goal: Position,
    obs: Set<(i64, i64)>,
    cfg: GridConfig,
) -> bool {
    &&& w.len() >= 1
    &&& w[0] == start
    &&& w[w.len() - 1] == goal
    &&& forall|i: int| 0 <= i < w.len() ==> valid_pos(#[trigger] w[i], cfg)
    &&& forall|i: int|
        0 <= i < w.len() - 1 ==> step_adjacent(#[trigger] w[i], w[i + 1], cfg.cell_size as int)
    &&& forall|i: int| 1 <= i < w.len() ==> !obs.contains(pos_key(#[trigger] w[i]))
}

/// Whether the goal can be reached from the start at all, given the
/// obstacles.
pub open spec fn reachable(
    start: Position,
    goal: Position,
    obs: Set<(i64, i64)>,
    cfg: GridConfig,
) -> bool {
    exists|w: Seq<Position>| is_free_walk(w, start, goal, obs, cfg)
}

/// A valid search result, in goal-to-start order: legal single steps, all
/// inside the field, avoiding the obstacle set everywhere except possibly
/// at the start cell itself (its last element).
pub open spec fn is_search_path(
    p: Seq<Position>,
    start: Position,
    goal: Position,
    obs: Set<(i64, i64)>,
    cfg: GridConfig,
) -> bool {
    &&& p.len() >= 1
    &&& p[0] == goal
    &&& p[p.len() - 1] == start
    &&& forall|i: int| 0 <= i < p.len() ==> valid_pos(#[trigger] p[i], cfg)
    &&& forall|i: int|
        0 <= i < p.len() - 1 ==> step_adjacent(#[trigger] p[i + 1], p[i], cfg.cell_size as int)
    &&& forall|i: int| 0 <= i < p.len() - 1 ==> !obs.contains(pos_key(#[trigger] p[i]))
}

/// No returned path runs through an obstacle: every cell of a valid search
/// result except the start cell avoids the obstacle set by construction,
/// and so does the start cell whenever it is not an obstacle itself.
pub proof fn lemma_search_path_avoids_obstacles(
    p: Seq<Position>,
    start: Position,
    goal: Position,
    obs: Set<(i64, i64)>,
    cfg: GridConfig,
)
    requires
        is_search_path(p, start, goal, obs, cfg),
        !obs.contains(pos_key(start)),
    ensures
        forall|i: int| 0 <= i < p.len() ==> !obs.contains(pos_key(#[trigger] p[i])),
{
}

/// The best-first searcher: a dense arena of explored records, the open
/// list of unexpanded candidates, the closed set of expanded positions, and
/// a cache of the current obstacle cells. All of it is per-call scratch,
/// cleared at the start of every search.
pub struct Searcher {
    config: GridConfig,
    node_link: Vec<Node>,
    cursor: usize,
    open: Vec<Node>,
    closed: PosSet,
    obstacles: PosSet,
}

impl Searcher {
    /// The grid geometry this searcher was built for.
    pub closed spec fn cfg(self) -> GridConfig {
        self.config
    }

    /// The cells currently cached as blocked.
    pub closed spec fn obstacle_cache(self) -> Set<(i64, i64)> {
        pos_set_contents(self.obstacles)
    }

    /// Same search scratch state (arena, id counter, open list, closed set).
    pub closed spec fn same_search_state(self, other: Searcher) -> bool {
        &&& self.node_link == other.node_link
        &&& self.cursor == other.cursor
        &&& self.open == other.open
        &&& self.closed == other.closed
    }

    /// All per-call scratch state cleared.
    pub closed spec fn is_reset(self) -> bool {
        &&& self.node_link@.len() == 0
        &&& self.cursor == 0
        &&& self.open@.len() == 0
        &&& pos_set_contents(self.closed) == Set::<(i64, i64)>::empty()
        &&& pos_set_contents(self.obstacles) == Set::<(i64, i64)>::empty()
    }

    /// A searcher for the given grid; malformed configurations are rejected
    /// here, at construction time.
    pub fn new(config: GridConfig) -> (r: Result<Searcher, SolverError>)
        ensures
            match r {
                Ok(s) => config.wf() && s.cfg() == config,
                Err(e) => e == SolverError::MalformedConfig && !config.wf(),
            },
    {
        if !config.is_wf() {
            return Err(SolverError::MalformedConfig);
        }
        proof {
            vstd::arithmetic::mul::lemma_mul_upper_bound(
                config.width as int, 4096, config.height as int, 4096);
            vstd::arithmetic::mul::lemma_mul_nonnegative(config.width as int, config.height as int);
        }
        let capacity = config.width * config.height;
        Ok(
            Searcher {
                config,
                node_link: Vec::new(),
                cursor: 0,
                open: Vec::new(),
                closed: pos_set_with_capacity(capacity),
                obstacles: pos_set_with_capacity(capacity),
            },
        )
    }

    /// Replace the cached obstacle set by the cells of `obstacles`.
    pub fn update_obs_cache(&mut self, obstacles: &Tail)
        ensures
            final(self).cfg() == old(self).cfg(),
            final(self).same_search_state(*old(self)),
            final(self).obstacle_cache() == occupied_keys(obstacles@),
    {
        pos_set_clear(&mut self.obstacles);
        proof {
            assert(pos_set_contents(self.obstacles) =~= occupied_keys(obstacles@.take(0)));
        }
        let n = obstacles.len();
        let mut i: usize = 0;
        while i < n
            invariant
                n == obstacles@.len(),
                0 <= i <= n,
                self.config == old(self).config,
                self.node_link == old(self).node_link,
                self.cursor == old(self).cursor,
                self.open == old(self).open,
                self.closed == old(self).closed,
                pos_set_contents(self.obstacles) == occupied_keys(obstacles@.take(i as int)),
            decreases n - i,
        {
            let p = obstacles[i];
            pos_set_insert(&mut self.obstacles, (p.x, p.y));
            proof {
                lemma_occupied_take_push(obstacles@, i as int);
            }
            i += 1;
        }
        proof {
            assert(obstacles@.take(n as int) =~= obstacles@);
        }
    }

    /// Clear all per-call scratch state.
    pub fn reset(&mut self)
        ensures
            final(self).cfg() == old(self).cfg(),
            final(self).is_reset(),
    {
        self.open.clear();
        pos_set_clear(&mut self.closed);
        self.node_link.clear();
        pos_set_clear(&mut self.obstacles);
        self.cursor = 0;
    }

    /// Hand out the next dense record id.
    fn gen_id(&mut self) -> (id: usize)
        requires
            old(self).cursor < usize::MAX,
        ensures
            id == old(self).cursor,
            final(self).cursor == old(self).cursor + 1,
            final(self).config == old(self).config,
            final(self).node_link == old(self).node_link,
            final(self).open == old(self).open,
            final(self).closed == old(self).closed,
            final(self).obstacles == old(self).obstacles,
    {
        let id = self.cursor;
        self.cursor = self.cursor + 1;
        id
    }
}

/// Taking one more position into a prefix adds exactly its key to the
/// occupied-key set.
proof fn lemma_occupied_take_push(s: Seq<Position>, i: int)
    requires
        0 <= i < s.len(),
    ensures
        occupied_keys(s.take(i + 1)) =~= occupied_keys(s.take(i)).insert(pos_key(s[i])),
{
    let lhs = occupied_keys(s.take(i + 1));
    let rhs = occupied_keys(s.take(i)).insert(pos_key(s[i]));
    assert forall|k: (i64, i64)| lhs.contains(k) implies rhs.contains(k) by {
        let j = choose|j: int| 0 <= j < s.take(i + 1).len() && pos_key(#[trigger] s.take(i + 1)[j]) == k;
        if j < i {
            assert(pos_key(s.take(i)[j]) == k);
        }
    };
    assert forall|k: (i64, i64)| rhs.contains(k) implies lhs.contains(k) by {
        if k == pos_key(s[i]) {
            assert(pos_key(s.take(i + 1)[i]) == k);
        } else {
            let j = choose|j: int| 0 <= j < s.take(i).len() && pos_key(#[trigger] s.take(i)[j]) == k;
            assert(pos_key(s.take(i + 1)[j]) == k);
        }
    };
}


/// Either already expanded or still waiting in the open list.
spec fn covered(closed: Set<(i64, i64)>, open: Seq<Node>, q: Position) -> bool {
    closed.contains(pos_key(q)) || in_open(open, q)
}

/// The four candidate cells around `p`, in the fixed generation order:
/// up, down, left, right.
spec fn nbr(p: Position, k: int, cs: int) -> Position {
    if k == 0 {
        Position { x: p.x, y: (p.y - cs) as i64 }
    } else if k == 1 {
        Position { x: p.x, y: (p.y + cs) as i64 }
    } else if k == 2 {
        Position { x: (p.x - cs) as i64, y: p.y }
    } else {
        Position { x: (p.x + cs) as i64, y: p.y }
    }
}

/// The playing field of a well-formed grid is at most `2^24` units wide
/// and high, and not empty.
pub proof fn lemma_field_bounds(cfg: GridConfig)
    requires
        cfg.wf(),
    ensures
        1 <= cfg.x_bound() <= 0x100_0000,
        1 <= cfg.y_bound() <= 0x100_0000,
{
    vstd::arithmetic::mul::lemma_mul_upper_bound(cfg.width as int, 4096, cfg.cell_size as int, 4096);
    vstd::arithmetic::mul::lemma_mul_upper_bound(cfg.height as int, 4096, cfg.cell_size as int, 4096);
    assert(cfg.x_bound() >= 1 && cfg.y_bound() >= 1) by (nonlinear_arith)
        requires
            cfg.width >= 1 && cfg.height >= 1 && cfg.cell_size >= 1,
            cfg.x_bound() == cfg.width * cfg.cell_size,
            cfg.y_bound() == cfg.height * cfg.cell_size,
    ;
}

/// Positions inside the field are bounded coordinates.
pub proof fn lemma_valid_pos_bounded(p: Position, cfg: GridConfig)
    requires
        cfg.wf(),
        valid_pos(p, cfg),
    ensures
        p.bounded(),
{
    lemma_field_bounds(cfg);
}

/// Every legal single step from `p` lands on one of its four candidate
/// cells.
proof fn lemma_adjacent_is_nbr(p: Position, q: Position, cs: int)
    requires
        step_adjacent(p, q, cs),
        p.bounded(),
        0 < cs <= 4096,
    ensures
        exists|k: int| 0 <= k < 4 && q == #[trigger] nbr(p, k, cs),
{
    if q.x == p.x && q.y == p.y - cs {
        assert(q == nbr(p, 0, cs));
    } else if q.x == p.x && q.y == p.y + cs {
        assert(q == nbr(p, 1, cs));
    } else if q.x == p.x - cs && q.y == p.y {
        assert(q == nbr(p, 2, cs));
    } else {
        assert(q == nbr(p, 3, cs));
    }
}

/// A chain is never longer than its head index.
proof fn lemma_chain_len_le(arena: Seq<Node>, i: int)
    requires
        0 <= i < arena.len(),
    ensures
        chain_len(arena, i) <= i,
    decreases i,
{
    match arena[i].parent_id {
        None => {},
        Some(p) => {
            if p < i {
                lemma_chain_len_le(arena, p as int);
            }
        },
    }
}

/// A position that survives the removal of one open record at another
/// position is still in the open list.
proof fn lemma_in_open_after_remove(open0: Seq<Node>, idx: int, q: Position)
    requires
        0 <= idx < open0.len(),
        in_open(open0, q),
        open0[idx].pos != q,
    ensures
        in_open(open0.remove(idx), q),
{
    let j = choose|j: int| 0 <= j < open0.len() && (#[trigger] open0[j]).pos == q;
    if j < idx {
        assert(open0.remove(idx)[j] == open0[j]);
    } else {
        assert(open0.remove(idx)[j - 1] == open0[j]);
    }
}

/// Pushing a record keeps every open position in the open list, and adds
/// the pushed record's own.
proof fn lemma_in_open_after_push(open0: Seq<Node>, n: Node, q: Position)
    requires
        in_open(open0, q) || n.pos == q,
    ensures
        in_open(open0.push(n), q),
{
    if in_open(open0, q) {
        let j = choose|j: int| 0 <= j < open0.len() && (#[trigger] open0[j]).pos == q;
        assert(open0.push(n)[j] == open0[j]);
    } else {
        assert(open0.push(n)[open0.len() as int] == n);
    }
}

/// Finitely many cells fit in the field: a set of in-field, on-lattice
/// keys has at most `width * height` elements.
proof fn lemma_closed_card(closed: Set<(i64, i64)>, start: Position, goal: Position, cfg: GridConfig)
    requires
        cfg.wf(),
        closed_ok(closed, start, goal, cfg),
    ensures
        closed.len() <= cfg.width * cfg.height,
{
    let cs = cfg.cell_size as int;
    let w = cfg.width as int;
    let h = cfg.height as int;
    let f = |k: (i64, i64)| (k.0 as int / cs) * h + (k.1 as int / cs);
    let image = closed.map(f);

    assert forall|k: (i64, i64)| closed.contains(k) implies 0 <= #[trigger] f(k) < w * h by {
        lemma_cell_index_bounds(k.0 as int, w, cs);
        lemma_cell_index_bounds(k.1 as int, h, cs);
        let q1 = k.0 as int / cs;
        let q2 = k.1 as int / cs;
        assert(0 <= q1 * h + q2 < w * h) by (nonlinear_arith)
            requires
                0 <= q1 < w,
                0 <= q2 < h,
        ;
    };
    assert forall|k1: (i64, i64), k2: (i64, i64)|
        closed.contains(k1) && closed.contains(k2) && #[trigger] f(k1) == #[trigger] f(k2)
    implies k1 == k2 by {
        lemma_cell_index_bounds(k1.0 as int, w, cs);
        lemma_cell_index_bounds(k1.1 as int, h, cs);
        lemma_cell_index_bounds(k2.0 as int, w, cs);
        lemma_cell_index_bounds(k2.1 as int, h, cs);
        let a1 = k1.0 as int / cs;
        let b1 = k1.1 as int / cs;
        let a2 = k2.0 as int / cs;
        let b2 = k2.1 as int / cs;
        assert(a1 == a2 && b1 == b2) by (nonlinear_arith)
            requires
                a1 * h + b1 == a2 * h + b2,
                0 <= b1 < h,
                0 <= b2 < h,
        ;
        vstd::arithmetic::div_mod::lemma_fundamental_div_mod(k1.0 as int, cs);
        vstd::arithmetic::div_mod::lemma_fundamental_div_mod(k2.0 as int, cs);
        vstd::arithmetic::div_mod::lemma_fundamental_div_mod(k1.1 as int, cs);
        vstd::arithmetic::div_mod::lemma_fundamental_div_mod(k2.1 as int, cs);
    };
    vstd::set_lib::lemma_map_size(closed, image, f);
    assert(image.subset_of(vstd::set_lib::set_int_range(0, w * h)));
    vstd::set_lib::lemma_int_range(0, w * h);
    vstd::set_lib::lemma_len_subset(image, vstd::set_lib::set_int_range(0, w * h));
}

/// A coordinate inside `[0, n * cs)` has cell index `coord / cs` inside
/// `[0, n)`.
proof fn lemma_cell_index_bounds(coord: int, n: int, cs: int)
    requires
        0 < cs,
        0 < n,
        0 <= coord < n * cs,
    ensures
        0 <= coord / cs < n,
{
    vstd::arithmetic::div_mod::lemma_fundamental_div_mod(coord, cs);
    vstd::arithmetic::div_mod::lemma_mod_bound(coord, cs);
    let q = coord / cs;
    let r = coord % cs;
    assert(0 <= q && q < n) by (nonlinear_arith)
        requires
            coord == cs * q + r,
            0 <= r < cs,
            0 <= coord < n * cs,
            0 < cs,
    ;
}

/// Once the open list is exhausted, the closed set is closed under free
/// steps, so every free walk from a closed start stays inside it.
proof fn lemma_walk_stays_closed(
    w: Seq<Position>,
    start: Position,
    goal: Position,
    obs: Set<(i64, i64)>,
    cfg: GridConfig,
    closed: Set<(i64, i64)>,
)
    requires
        is_free_walk(w, start, goal, obs, cfg),
        closed.contains(pos_key(start)),
        frontier_ok(closed, Seq::<Node>::empty(), start, obs, cfg.cell_size as int, cfg),
    ensures
        closed.contains(pos_key(goal)),
    decreases w.len(),
{
    if w.len() == 1 {
        assert(goal == start);
    } else {
        let nxt = w[1];
        assert(step_adjacent(w[0], w[1], cfg.cell_size as int));
        assert(closed.contains(pos_key(nxt)) || in_open(Seq::<Node>::empty(), nxt));
        assert(!in_open(Seq::<Node>::empty(), nxt));
        let w2 = w.subrange(1, w.len() as int);
        assert(w2[0] == nxt);
        assert(w2[w2.len() - 1] == goal);
        assert forall|i: int| 0 <= i < w2.len() - 1 implies step_adjacent(
            #[trigger] w2[i],
            w2[i + 1],
            cfg.cell_size as int,
        ) by {
            assert(w2[i] == w[i + 1] && w2[i + 1] == w[i + 2]);
        };
        assert forall|i: int| 0 <= i < w2.len() implies valid_pos(#[trigger] w2[i], cfg) by {
            assert(w2[i] == w[i + 1]);
        };
        assert forall|i: int| 1 <= i < w2.len() implies !obs.contains(pos_key(#[trigger] w2[i])) by {
            assert(w2[i] == w[i + 1]);
        };
        lemma_walk_stays_closed(w2, nxt, goal, obs, cfg, closed);
    }
}

/// First index of the lowest f cost: the fixed, deterministic tie-break
/// rule of the open list.
fn find_min_f(open: &Vec<Node>) -> (idx: usize)
    requires
        open@.len() > 0,
    ensures
        0 <= idx < open@.len(),
        forall|j: int|
            0 <= j < open@.len() ==> open@[idx as int].f_cost <= (#[trigger] open@[j]).f_cost,
        forall|j: int| 0 <= j < idx ==> (#[trigger] open@[j]).f_cost > open@[idx as int].f_cost,
{
    let mut best: usize = 0;
    let mut i: usize = 1;
    while i < open.len()
        invariant
            1 <= i <= open@.len(),
            0 <= best < i,
            forall|j: int| 0 <= j < i ==> open@[best as int].f_cost <= (#[trigger] open@[j]).f_cost,
            forall|j: int| 0 <= j < best ==> (#[trigger] open@[j]).f_cost > open@[best as int].f_cost,
        decreases open@.len() - i,
    {
        if open[i].f_cost < open[best].f_cost {
            best = i;
        }
        i += 1;
    }
    best
}

/// Whether some open record already waits at `pos` with a g cost no worse
/// than `g`; such a candidate would be redundant.
fn open_has_better(open: &Vec<Node>, pos: Position, g: i64) -> (r: bool)
    ensures
        r == exists|j: int|
            0 <= j < open@.len() && (#[trigger] open@[j]).pos == pos && open@[j].g_cost <= g,
{
    let mut i: usize = 0;
    while i < open.len()
        invariant
            0 <= i <= open@.len(),
            forall|j: int|
                0 <= j < i ==> !((#[trigger] open@[j]).pos == pos && open@[j].g_cost <= g),
        decreases open@.len() - i,
    {
        if open[i].pos == pos && open[i].g_cost <= g {
            return true;
        }
        i += 1;
    }
    false
}

impl Searcher {
    /// Reconstruct the path by following parent ids through the arena from
    /// `current` back to the root, in goal-to-start order.
    fn backtrack_path(&self, current: Node) -> (p: Vec<Position>)
        requires
            arena_wf(self.node_link@, self.node_link@[0].pos, self.config),
            0 <= current.id < self.node_link@.len(),
            self.node_link@[current.id as int].pos == current.pos,
            chain_ok(
                self.node_link@,
                current.id as int,
                pos_set_contents(self.obstacles),
                self.config,
            ),
        ensures
            p@.len() == chain_len(self.node_link@, current.id as int) + 1,
            is_search_path(
                p@,
                self.node_link@[0].pos,
                current.pos,
                pos_set_contents(self.obstacles),
                self.config,
            ),
    {
        let ghost arena = self.node_link@;
        let ghost obs = pos_set_contents(self.obstacles);
        let ghost cfg = self.config;
        let mut path: Vec<Position> = Vec::with_capacity(512);
        let mut cur: usize = current.id;
        path.push(self.node_link[cur].pos);
        loop
            invariant
                arena == self.node_link@,
                obs == pos_set_contents(self.obstacles),
                cfg == self.config,
                arena_wf(arena, arena[0].pos, cfg),
                0 <= cur < arena.len(),
                chain_ok(arena, cur as int, obs, cfg),
                path@.len() >= 1,
                path@[0] == current.pos,
                path@[path@.len() - 1] == arena[cur as int].pos,
                path@.len() + chain_len(arena, cur as int) == chain_len(
                    arena,
                    current.id as int,
                ) + 1,
                forall|i: int| 0 <= i < path@.len() ==> valid_pos(#[trigger] path@[i], cfg),
                forall|i: int|
                    0 <= i < path@.len() - 1 ==> step_adjacent(
                        #[trigger] path@[i + 1],
                        path@[i],
                        cfg.cell_size as int,
                    ),
                forall|i: int|
                    0 <= i < path@.len() - 1 ==> !obs.contains(pos_key(#[trigger] path@[i])),
            ensures
                arena == self.node_link@,
                0 <= cur < arena.len(),
                arena[cur as int].parent_id is None,
                path@.len() >= 1,
                path@[0] == current.pos,
                path@[path@.len() - 1] == arena[cur as int].pos,
                path@.len() + chain_len(arena, cur as int) == chain_len(
                    arena,
                    current.id as int,
                ) + 1,
                forall|i: int| 0 <= i < path@.len() ==> valid_pos(#[trigger] path@[i], cfg),
                forall|i: int|
                    0 <= i < path@.len() - 1 ==> step_adjacent(
                        #[trigger] path@[i + 1],
                        path@[i],
                        cfg.cell_size as int,
                    ),
                forall|i: int|
                    0 <= i < path@.len() - 1 ==> !obs.contains(pos_key(#[trigger] path@[i])),
            decreases cur,
        {
            let node = self.node_link[cur];
            match node.parent_id {
                Some(pid) => {
                    proof {
                        assert(cur >= 1) by {
                            if cur == 0 {
                                assert(arena[0].parent_id is None);
                            }
                        };
                        assert(0 <= parent_idx(arena[cur as int]) < cur);
                        assert(step_adjacent(
                            arena[pid as int].pos,
                            arena[cur as int].pos,
                            cfg.cell_size as int,
                        ));
                        assert(chain_ok(arena, pid as int, obs, cfg));
                        assert(valid_pos(arena[pid as int].pos, cfg));
                        assert(!obs.contains(pos_key(arena[cur as int].pos)));
                        assert(chain_len(arena, cur as int) == 1 + chain_len(arena, pid as int));
                    }
                    path.push(self.node_link[pid].pos);
                    cur = pid;
                },
                None => {
                    break;
                },
            }
        }
        proof {
            assert(cur == 0) by {
                if cur != 0 {
                    assert(arena[cur as int].parent_id is Some);
                }
            };
            assert(chain_len(arena, 0) == 0);
        }
        path
    }

    /// Best-first search from `start` to `goal` on the grid, avoiding the
    /// cells of `obstacles`. Returns the found path in goal-to-start order,
    /// or `None` exactly when no free walk connects the two cells. All
    /// internal state is cleared on entry; nothing persists across calls.
    #[verifier::rlimit(100)]
    pub fn a_star(&mut self, start: Position, goal: Position, obstacles: &Tail) -> (r: Option<
        Vec<Position>,
    >)
        requires
            old(self).cfg().wf(),
            valid_pos(start, old(self).cfg()),
            valid_pos(goal, old(self).cfg()),
        ensures
            final(self).cfg() == old(self).cfg(),
            match r {
                Some(p) => is_search_path(
                    p@,
                    start,
                    goal,
                    occupied_keys(obstacles@),
                    old(self).cfg(),
                ) && (obstacles@.len() == 0 ==> p@.len() == spec_mhtn(start, goal) / (
                old(self).cfg().cell_size as int) + 1),
                None => !reachable(start, goal, occupied_keys(obstacles@), old(self).cfg()) && !(
                obstacles@.len() == 0 && key_on_lattice(
                    pos_key(goal),
                    start,
                    old(self).cfg().cell_size as int,
                )),
            },
    {
        let ghost cfg = old(self).cfg();
        let ghost obs = occupied_keys(obstacles@);
        let ghost csi = cfg.cell_size as int;
        self.reset();
        self.update_obs_cache(obstacles);
        proof {
            lemma_field_bounds(cfg);
            vstd::arithmetic::mul::lemma_mul_upper_bound(
                cfg.width as int,
                4096,
                cfg.height as int,
                4096,
            );
        }

        let id0 = self.gen_id();
        let start_node = Node {
            pos: start,
            parent_id: None,
            id: id0,
            g_cost: 0,
            h_cost: 0,
            f_cost: 0,
        };
        self.open.push(start_node);
        self.node_link.push(start_node);

        let lower = Position { x: 0, y: 0 };
        let upper = Position {
            x: (self.config.width * self.config.cell_size) as i64,
            y: (self.config.height * self.config.cell_size) as i64,
        };
        let cs = self.config.cell_size as i64;

        let ghost mut closed_g: Map<(i64, i64), int> = Map::empty();
        proof {
            assert(closed_g.dom() =~= pos_set_contents(self.closed));
            assert(root_open_ok(pos_set_contents(self.closed), self.open@, start)) by {
                assert(self.open@[0].id == 0);
            };
            assert(in_open(self.open@, start)) by {
                assert(self.open@[0] == start_node);
            };
            assert(pos_set_contents(self.closed) =~= Set::<(i64, i64)>::empty());
            assert(open_node_ok(start_node, self.node_link@, start, goal, obs, cfg)) by {
                assert(chain_len(self.node_link@, 0) == 0);
                assert(chain_ok(self.node_link@, 0, obs, cfg));
            };
            assert(forall|j: int|
                0 <= j < self.open@.len() ==> #[trigger] self.open@[j] == start_node);
        }

        while self.open.len() > 0
            invariant
                self.config == cfg,
                cfg == old(self).cfg(),
                cfg.wf(),
                valid_pos(start, cfg),
                valid_pos(goal, cfg),
                1 <= cfg.x_bound() <= 0x100_0000,
                1 <= cfg.y_bound() <= 0x100_0000,
                cfg.width * cfg.height <= 0x100_0000,
                lower == (Position { x: 0, y: 0 }),
                upper.x == cfg.x_bound() && upper.y == cfg.y_bound(),
                cs == cfg.cell_size,
                csi == cfg.cell_size as int,
                obs == occupied_keys(obstacles@),
                pos_set_contents(self.obstacles) == obs,
                self.cursor == self.node_link@.len(),
                self.node_link@.len() <= 1 + 4 * pos_set_contents(self.closed).len(),
                arena_wf(self.node_link@, start, cfg),
                closed_ok(pos_set_contents(self.closed), start, goal, cfg),
                forall|j: int|
                    0 <= j < self.open@.len() ==> open_node_ok(
                        #[trigger] self.open@[j],
                        self.node_link@,
                        start,
                        goal,
                        obs,
                        cfg,
                    ),
                frontier_ok(pos_set_contents(self.closed), self.open@, start, obs, csi, cfg),
                closed_g.dom() == pos_set_contents(self.closed),
                root_open_ok(pos_set_contents(self.closed), self.open@, start),
                obstacles@.len() == 0 ==> closed_g_ok(
                    pos_set_contents(self.closed),
                    closed_g,
                    start,
                ),
                obstacles@.len() == 0 ==> frontier_g_ok(
                    pos_set_contents(self.closed),
                    closed_g,
                    self.open@,
                    csi,
                    cfg,
                ),
            decreases cfg.width * cfg.height - pos_set_contents(self.closed).len(), self.open@.len(),
        {
            proof {
                lemma_closed_card(pos_set_contents(self.closed), start, goal, cfg);
            }
            let ghost open0 = self.open@;
            let ghost closed0 = pos_set_contents(self.closed);
            let idx = find_min_f(&self.open);
            let current = self.open.remove(idx);
            proof {
                assert(open_node_ok(current, self.node_link@, start, goal, obs, cfg));
                lemma_open_nodes_after_remove(open0, idx as int, self.node_link@, start, goal, obs, cfg);
            }
            let ck = (current.pos.x, current.pos.y);
            let stale = pos_set_contains(&self.closed, ck);
            if stale {
                // A worse duplicate of an already expanded position: skip it.
                proof {
                    lemma_frontier_after_remove(closed0, open0, idx as int, start, obs, csi, cfg);
                    assert(root_open_ok(closed0, self.open@, start)) by {
                        if !closed0.contains(pos_key(start)) {
                            let j = choose|j: int|
                                0 <= j < open0.len() && (#[trigger] open0[j]).id == 0;
                            assert(current.id != 0) by {
                                if current.id == 0 {
                                    assert(current.pos == start);
                                    assert(closed0.contains(pos_key(start)));
                                }
                            };
                            if j < idx {
                                assert(self.open@[j] == open0[j]);
                            } else {
                                assert(j != idx);
                                assert(self.open@[j - 1] == open0[j]);
                            }
                        }
                    };
                    if obstacles@.len() == 0 {
                        lemma_frontier_g_after_remove(
                            closed0,
                            closed_g,
                            open0,
                            idx as int,
                            csi,
                            cfg,
                        );
                    }
                }
            } else {
                proof {
                    assert(valid_pos(current.pos, cfg)) by {
                        assert(chain_ok(self.node_link@, current.id as int, obs, cfg));
                    };
                    if obstacles@.len() == 0 {
                        assert(obs =~= Set::<(i64, i64)>::empty());
                        assert(obs == Set::<(i64, i64)>::empty());
                        lemma_pop_accurate(
                            open0,
                            idx as int,
                            self.node_link@,
                            closed0,
                            closed_g,
                            start,
                            goal,
                            cfg,
                        );
                        assert(current.g_cost == spec_mhtn(start, current.pos));
                    }
                }
                pos_set_insert(&mut self.closed, ck);
                let ghost closed1 = pos_set_contents(self.closed);
                let ghost closed_g0 = closed_g;
                proof {
                    closed_g = closed_g.insert(ck, current.g_cost as int);
                    assert(key_in_field(ck, cfg));
                    assert(key_on_lattice(ck, start, csi));
                    assert(closed1 == closed0.insert(pos_key(current.pos)));
                    assert(closed1.len() == closed0.len() + 1);
                    assert(closed_g.dom() =~= closed1);
                    if obstacles@.len() == 0 {
                        assert(closed_g_ok(closed1, closed_g, start)) by {
                            assert forall|k: (i64, i64)| #[trigger] closed1.contains(k) implies
                            closed_g.dom().contains(k) && closed_g[k] == spec_mhtn(
                                start,
                                Position { x: k.0, y: k.1 },
                            ) by {
                                if k == ck {
                                    assert(Position { x: k.0, y: k.1 } == current.pos);
                                } else {
                                    assert(closed0.contains(k));
                                }
                            };
                        };
                    }
                }
                if current.pos == goal {
                    let path = self.backtrack_path(current);
                    proof {
                        if obstacles@.len() == 0 {
                            let chain = chain_len(self.node_link@, current.id as int);
                            assert(current.g_cost == cfg.cell_size * chain);
                            vstd::arithmetic::div_mod::lemma_div_multiples_vanish(
                                chain as int,
                                csi,
                            );
                            assert(spec_mhtn(start, goal) / csi == chain);
                        }
                    }
                    return Some(path);
                }
                proof {
                    assert(closed_ok(closed1, start, goal, cfg)) by {
                        assert(pos_key(goal) != ck) by {
                            if pos_key(goal) == ck {
                                assert(goal == current.pos);
                            }
                        };
                    };
                    lemma_closed_card(closed1, start, goal, cfg);
                    lemma_frontier_split_after_close(
                        closed0,
                        open0,
                        idx as int,
                        current.pos,
                        start,
                        obs,
                        csi,
                        cfg,
                    );
                    assert(root_open_ok(closed1, self.open@, start)) by {
                        if !closed1.contains(pos_key(start)) {
                            assert(!closed0.contains(pos_key(start)));
                            let j = choose|j: int|
                                0 <= j < open0.len() && (#[trigger] open0[j]).id == 0;
                            assert(current.id != 0) by {
                                if current.id == 0 {
                                    assert(current.pos == start);
                                    assert(closed1.contains(pos_key(start)));
                                }
                            };
                            if j < idx {
                                assert(self.open@[j] == open0[j]);
                            } else {
                                assert(j != idx);
                                assert(self.open@[j - 1] == open0[j]);
                            }
                        }
                    };
                    if obstacles@.len() == 0 {
                        lemma_frontier_g_split_after_close(
                            closed0,
                            closed_g0,
                            open0,
                            idx as int,
                            current,
                            csi,
                            cfg,
                        );
                        assert(closed_g == closed_g0.insert(pos_key(current.pos), current.g_cost as int));
                        assert(closed_g[pos_key(current.pos)] == current.g_cost);
                    }
                }
                // Generate the four orthogonal candidates around `current`.
                let ghost arena_at_pop = self.node_link@;
                let ghost cur_chain = chain_len(self.node_link@, current.id as int);
                proof {
                    lemma_chain_len_le(self.node_link@, current.id as int);
                    vstd::arithmetic::mul::lemma_mul_upper_bound(
                        cfg.cell_size as int,
                        4096,
                        cur_chain as int,
                        self.node_link@.len() as int,
                    );
                    vstd::arithmetic::mul::lemma_mul_nonnegative(
                        cfg.cell_size as int,
                        cur_chain as int,
                    );
                }
                let mut k: usize = 0;
                while k < 4
                    invariant
                        self.config == cfg,
                        cfg.wf(),
                        valid_pos(start, cfg),
                        valid_pos(goal, cfg),
                        1 <= cfg.x_bound() <= 0x100_0000,
                        1 <= cfg.y_bound() <= 0x100_0000,
                        cfg.width * cfg.height <= 0x100_0000,
                        lower == (Position { x: 0, y: 0 }),
                        upper.x == cfg.x_bound() && upper.y == cfg.y_bound(),
                        cs == cfg.cell_size,
                        csi == cfg.cell_size as int,
                        0 <= k <= 4,
                        obs == occupied_keys(obstacles@),
                        pos_set_contents(self.obstacles) == obs,
                        pos_set_contents(self.closed) == closed1,
                        closed_ok(closed1, start, goal, cfg),
                        closed1.len() <= cfg.width * cfg.height,
                        closed1 == closed0.insert(pos_key(current.pos)),
                        closed1.len() == closed0.len() + 1,
                        closed1.contains(pos_key(current.pos)),
                        self.cursor == self.node_link@.len(),
                        self.node_link@.len() == arena_at_pop.len() + k,
                        arena_at_pop.len() <= 1 + 4 * closed0.len(),
                        arena_wf(self.node_link@, start, cfg),
                        // the record of `current` in the arena
                        0 <= current.id < arena_at_pop.len(),
                        self.node_link@[current.id as int].pos == current.pos,
                        chain_ok(self.node_link@, current.id as int, obs, cfg),
                        current.pos != goal,
                        valid_pos(current.pos, cfg),
                        key_on_lattice(pos_key(current.pos), start, csi),
                        chain_len(self.node_link@, current.id as int) == cur_chain,
                        current.g_cost == cfg.cell_size * cur_chain,
                        0 <= current.g_cost <= 0x1000_0000_0000,
                        forall|j: int|
                            0 <= j < self.open@.len() ==> open_node_ok(
                                #[trigger] self.open@[j],
                                self.node_link@,
                                start,
                                goal,
                                obs,
                                cfg,
                            ),
                        // frontier, split around the cell being expanded
                        closed1.contains(pos_key(start)) || in_open(self.open@, start),
                        forall|p: Position, q: Position|
                            #![trigger closed1.contains(pos_key(p)), step_adjacent(p, q, csi)]
                            closed1.contains(pos_key(p)) && p != current.pos && step_adjacent(
                                p,
                                q,
                                csi,
                            ) && valid_pos(q, cfg) && !obs.contains(pos_key(q)) ==> covered(
                                closed1,
                                self.open@,
                                q,
                            ),
                        forall|k2: int|
                            0 <= k2 < k && valid_pos(nbr(current.pos, k2, csi), cfg)
                                && !obs.contains(pos_key(#[trigger] nbr(current.pos, k2, csi)))
                                ==> covered(closed1, self.open@, nbr(current.pos, k2, csi)),
                        closed_g.dom() == closed1,
                        closed_g[pos_key(current.pos)] == current.g_cost,
                        root_open_ok(closed1, self.open@, start),
                        obstacles@.len() == 0 ==> closed_g_ok(closed1, closed_g, start),
                        obstacles@.len() == 0 ==> forall|p: Position, q: Position|
                            #![trigger closed1.contains(pos_key(p)), step_adjacent(p, q, csi)]
                            closed1.contains(pos_key(p)) && p != current.pos && step_adjacent(
                                p,
                                q,
                                csi,
                            ) && valid_pos(q, cfg) ==> closed1.contains(pos_key(q)) || exists|
                                j: int,
                            |
                                0 <= j < self.open@.len() && (#[trigger] self.open@[j]).pos == q
                                    && self.open@[j].g_cost <= closed_g[pos_key(p)] + csi,
                        obstacles@.len() == 0 ==> forall|k2: int|
                            0 <= k2 < k && valid_pos(#[trigger] nbr(current.pos, k2, csi), cfg)
                                ==> closed1.contains(pos_key(nbr(current.pos, k2, csi))) || exists|
                                j: int,
                            |
                                0 <= j < self.open@.len() && (#[trigger] self.open@[j]).pos == nbr(
                                    current.pos,
                                    k2,
                                    csi,
                                ) && self.open@[j].g_cost <= closed_g[pos_key(current.pos)] + csi,
                    decreases 4 - k,
                {
                    let ghost arena0 = self.node_link@;
                    let ghost open_before = self.open@;
                    let (dx, dy): (i64, i64) = if k == 0 {
                        (0, -cs)
                    } else if k == 1 {
                        (0, cs)
                    } else if k == 2 {
                        (-cs, 0)
                    } else {
                        (cs, 0)
                    };
                    let child_pos = Position { x: current.pos.x + dx, y: current.pos.y + dy };
                    proof {
                        assert(child_pos == nbr(current.pos, k as int, csi));
                        assert(step_adjacent(current.pos, child_pos, csi));
                    }
                    let cid = self.gen_id();
                    let child = Node {
                        pos: child_pos,
                        parent_id: Some(current.id),
                        id: cid,
                        g_cost: 0,
                        h_cost: 0,
                        f_cost: 0,
                    };
                    self.node_link.push(child);
                    proof {
                        let arena1 = self.node_link@;
                        assert(forall|i: int|
                            0 <= i < arena0.len() ==> arena0[i] == #[trigger] arena1[i]);
                        assert(parent_idx(child) == current.id);
                        assert(arena0[current.id as int].pos == current.pos);
                        lemma_arena_push(arena0, child, start, cfg);
                        lemma_chain_stable(arena0, arena1, current.id as int, obs, cfg);
                        lemma_open_nodes_stable(self.open@, arena0, arena1, start, goal, obs, cfg);
                        assert(arena1[current.id as int].pos == current.pos);
                        assert(arena1[cid as int] == child);
                    }
                    let blocked = pos_set_contains(&self.obstacles, (child_pos.x, child_pos.y));
                    let in_field = child_pos.in_range(lower, upper);
                    let closed_already = pos_set_contains(
                        &self.closed,
                        (child_pos.x, child_pos.y),
                    );
                    if !blocked && in_field && !closed_already {
                        let g2 = current.g_cost + cs;
                        proof {
                            lemma_valid_pos_bounded(child_pos, cfg);
                            lemma_valid_pos_bounded(goal, cfg);
                        }
                        let h2 = child_pos.mhtn_dist(goal);
                        let f2 = g2 + h2;
                        let child2 = Node {
                            pos: child_pos,
                            parent_id: Some(current.id),
                            id: cid,
                            g_cost: g2,
                            h_cost: h2,
                            f_cost: f2,
                        };
                        let dup = open_has_better(&self.open, child_pos, g2);
                        if !dup {
                            proof {
                                let arena1 = self.node_link@;
                                assert(open_node_ok(child2, arena1, start, goal, obs, cfg)) by {
                                    assert(arena1[cid as int] == child);
                                    assert(chain_ok(arena1, cid as int, obs, cfg));
                                    assert(chain_len(arena1, cid as int) == 1 + cur_chain);
                                    assert(cfg.cell_size * (1 + cur_chain) == cfg.cell_size
                                        + cfg.cell_size * cur_chain) by (nonlinear_arith);
                                    assert(key_on_lattice(pos_key(child_pos), start, csi)) by {
                                        lemma_lattice_step(
                                            current.pos.x as int,
                                            child_pos.x as int,
                                            start.x as int,
                                            csi,
                                        );
                                        lemma_lattice_step(
                                            current.pos.y as int,
                                            child_pos.y as int,
                                            start.y as int,
                                            csi,
                                        );
                                    };
                                };
                            }
                            let ghost open_pre_push = self.open@;
                            self.open.push(child2);
                            proof {
                                assert(self.open@ == open_pre_push.push(child2));
                                assert forall|j: int| 0 <= j < self.open@.len() implies
                                open_node_ok(
                                    #[trigger] self.open@[j],
                                    self.node_link@,
                                    start,
                                    goal,
                                    obs,
                                    cfg,
                                ) by {
                                    if j < open_pre_push.len() {
                                        assert(self.open@[j] == open_pre_push[j]);
                                    } else {
                                        assert(self.open@[j] == child2);
                                    }
                                };
                                // coverage is monotone under a push
                                assert forall|q: Position|
                                    #[trigger] covered(closed1, open_pre_push, q) implies covered(
                                    closed1,
                                    self.open@,
                                    q,
                                ) by {
                                    if in_open(open_pre_push, q) {
                                        lemma_in_open_after_push(open_pre_push, child2, q);
                                    }
                                };
                                assert(covered(closed1, self.open@, child_pos)) by {
                                    lemma_in_open_after_push(open_pre_push, child2, child_pos);
                                };
                                assert(closed1.contains(pos_key(start)) || in_open(
                                    self.open@,
                                    start,
                                )) by {
                                    if in_open(open_pre_push, start) {
                                        lemma_in_open_after_push(open_pre_push, child2, start);
                                    }
                                };
                                assert(root_open_ok(closed1, self.open@, start)) by {
                                    if !closed1.contains(pos_key(start)) {
                                        let j = choose|j: int|
                                            0 <= j < open_pre_push.len() && (
                                            #[trigger] open_pre_push[j]).id == 0;
                                        assert(self.open@[j] == open_pre_push[j]);
                                    }
                                };
                                if obstacles@.len() == 0 {
                                    assert(child2.pos == nbr(current.pos, k as int, csi));
                                    lemma_g_frontier_push(
                                        closed1,
                                        closed_g,
                                        open_pre_push,
                                        child2,
                                        current.pos,
                                        k as int,
                                        csi,
                                        cfg,
                                    );
                                }
                            }
                        } else {
                            proof {
                                assert(covered(closed1, self.open@, child_pos)) by {
                                    assert(in_open(self.open@, child_pos));
                                };
                                if obstacles@.len() == 0 {
                                    let jw = choose|j: int|
                                        0 <= j < self.open@.len() && (#[trigger] self.open@[j]).pos
                                            == child_pos && self.open@[j].g_cost <= g2;
                                    assert(self.open@[jw].g_cost <= closed_g[pos_key(current.pos)]
                                        + csi);
                                }
                            }
                        }
                    } else {
                        proof {
                            if obstacles@.len() == 0 && valid_pos(child_pos, cfg) {
                                assert(obs =~= Set::<(i64, i64)>::empty());
                                assert(!blocked);
                                assert(closed_already);
                                assert(closed1.contains(pos_key(child_pos)));
                            }
                        }
                    }
                    k += 1;
                }
                proof {
                    lemma_valid_pos_bounded(current.pos, cfg);
                    lemma_frontier_restore(
                        closed1,
                        self.open@,
                        current.pos,
                        start,
                        obs,
                        csi,
                        cfg,
                    );
                    if obstacles@.len() == 0 {
                        lemma_frontier_g_restore(
                            closed1,
                            closed_g,
                            self.open@,
                            current.pos,
                            csi,
                            cfg,
                        );
                    }
                }
            }
        }
        // The open list is exhausted without reaching the goal: no free walk
        // can exist, for it would have to leave the closed set somewhere.
        proof {
            let closed_f = pos_set_contents(self.closed);
            assert(closed_f.contains(pos_key(start))) by {
                assert(!in_open(self.open@, start));
            };
            assert forall|w: Seq<Position>| !is_free_walk(w, start, goal, obs, cfg) by {
                if is_free_walk(w, start, goal, obs, cfg) {
                    assert(frontier_ok(closed_f, Seq::<Node>::empty(), start, obs, csi, cfg)) by {
                        assert forall|p: Position, q: Position|
                            closed_f.contains(pos_key(p)) && #[trigger] step_adjacent(p, q, csi)
                                && valid_pos(q, cfg) && !obs.contains(#[trigger] pos_key(q))
                        implies (closed_f.contains(pos_key(q)) || in_open(
                            Seq::<Node>::empty(),
                            q,
                        )) by {
                            assert(covered(closed_f, self.open@, q));
                            assert(!in_open(self.open@, q));
                        };
                    };
                    lemma_walk_stays_closed(w, start, goal, obs, cfg, closed_f);
                    assert(!closed_f.contains(pos_key(goal)));
                    assert(false);
                }
            };
            if obstacles@.len() == 0 && key_on_lattice(pos_key(goal), start, csi) {
                assert(obs =~= Set::<(i64, i64)>::empty());
                assert(obs == Set::<(i64, i64)>::empty());
                lemma_walk_exists(start, goal, cfg);
                let w = choose|w: Seq<Position>|
                    is_free_walk(w, start, goal, Set::<(i64, i64)>::empty(), cfg);
                assert(is_free_walk(w, start, goal, obs, cfg));
                assert(false);
            }
        }
        None
    }
}

/// Removing one record from the open list leaves the remaining records
/// well formed.
proof fn lemma_open_nodes_after_remove(
    open0: Seq<Node>,
    idx: int,
    arena: Seq<Node>,
    start: Position,
    goal: Position,
    obs: Set<(i64, i64)>,
    cfg: GridConfig,
)
    requires
        0 <= idx < open0.len(),
        forall|j: int|
            0 <= j < open0.len() ==> open_node_ok(#[trigger] open0[j], arena, start, goal, obs, cfg),
    ensures
        forall|j: int|
            0 <= j < open0.remove(idx).len() ==> open_node_ok(
                #[trigger] open0.remove(idx)[j],
                arena,
                start,
                goal,
                obs,
                cfg,
            ),
{
    assert forall|j: int| 0 <= j < open0.remove(idx).len() implies open_node_ok(
        #[trigger] open0.remove(idx)[j],
        arena,
        start,
        goal,
        obs,
        cfg,
    ) by {
        if j < idx {
            assert(open0.remove(idx)[j] == open0[j]);
        } else {
            assert(open0.remove(idx)[j] == open0[j + 1]);
        }
    };
}

/// Removing an open record whose position is already closed keeps the
/// frontier property.
proof fn lemma_frontier_after_remove(
    closed0: Set<(i64, i64)>,
    open0: Seq<Node>,
    idx: int,
    start: Position,
    obs: Set<(i64, i64)>,
    csi: int,
    cfg: GridConfig,
)
    requires
        0 <= idx < open0.len(),
        frontier_ok(closed0, open0, start, obs, csi, cfg),
        closed0.contains(pos_key(open0[idx].pos)),
    ensures
        frontier_ok(closed0, open0.remove(idx), start, obs, csi, cfg),
{
    let cp = open0[idx].pos;
    let open1 = open0.remove(idx);
    assert(closed0.contains(pos_key(start)) || in_open(open1, start)) by {
        if !closed0.contains(pos_key(start)) {
            assert(in_open(open0, start));
            assert(start != cp) by {
                if start == cp {
                    assert(closed0.contains(pos_key(start)));
                }
            };
            lemma_in_open_after_remove(open0, idx, start);
        }
    };
    assert forall|p: Position, q: Position|
        closed0.contains(pos_key(p)) && #[trigger] step_adjacent(p, q, csi) && valid_pos(q, cfg)
            && !obs.contains(#[trigger] pos_key(q)) implies (closed0.contains(pos_key(q))
        || in_open(open1, q)) by {
        if !closed0.contains(pos_key(q)) {
            assert(in_open(open0, q));
            assert(q != cp) by {
                if q == cp {
                    assert(closed0.contains(pos_key(q)));
                }
            };
            lemma_in_open_after_remove(open0, idx, q);
        }
    };
}

/// Closing the position of the record just removed from the open list
/// keeps every other closed cell's neighbors covered, and keeps the start
/// cell covered.
proof fn lemma_frontier_split_after_close(
    closed0: Set<(i64, i64)>,
    open0: Seq<Node>,
    idx: int,
    current_pos: Position,
    start: Position,
    obs: Set<(i64, i64)>,
    csi: int,
    cfg: GridConfig,
)
    requires
        0 <= idx < open0.len(),
        open0[idx].pos == current_pos,
        frontier_ok(closed0, open0, start, obs, csi, cfg),
    ensures
        closed0.insert(pos_key(current_pos)).contains(pos_key(start)) || in_open(
            open0.remove(idx),
            start,
        ),
        forall|p: Position, q: Position|
            #![trigger closed0.insert(pos_key(current_pos)).contains(pos_key(p)), step_adjacent(p, q, csi)]
            closed0.insert(pos_key(current_pos)).contains(pos_key(p)) && p != current_pos
                && step_adjacent(p, q, csi) && valid_pos(q, cfg) && !obs.contains(pos_key(q))
                ==> covered(closed0.insert(pos_key(current_pos)), open0.remove(idx), q),
{
    let closed1 = closed0.insert(pos_key(current_pos));
    let open1 = open0.remove(idx);
    assert(closed1.contains(pos_key(start)) || in_open(open1, start)) by {
        if !closed1.contains(pos_key(start)) {
            assert(!closed0.contains(pos_key(start)));
            assert(in_open(open0, start));
            assert(start != current_pos) by {
                if start == current_pos {
                    assert(closed1.contains(pos_key(start)));
                }
            };
            lemma_in_open_after_remove(open0, idx, start);
        }
    };
    assert forall|p: Position, q: Position|
        closed1.contains(pos_key(p)) && p != current_pos && #[trigger] step_adjacent(p, q, csi)
            && valid_pos(q, cfg) && !obs.contains(#[trigger] pos_key(q)) implies covered(
        closed1,
        open1,
        q,
    ) by {
        assert(closed0.contains(pos_key(p))) by {
            if !closed0.contains(pos_key(p)) {
                assert(pos_key(p) == pos_key(current_pos));
                assert(p == current_pos);
            }
        };
        if !closed1.contains(pos_key(q)) {
            assert(!closed0.contains(pos_key(q)));
            assert(in_open(open0, q));
            assert(q != current_pos) by {
                if q == current_pos {
                    assert(closed1.contains(pos_key(q)));
                }
            };
            lemma_in_open_after_remove(open0, idx, q);
        }
    };
}

/// With all four candidate cells around the newly closed position handled,
/// the full frontier property holds again.
proof fn lemma_frontier_restore(
    closed1: Set<(i64, i64)>,
    open1: Seq<Node>,
    current_pos: Position,
    start: Position,
    obs: Set<(i64, i64)>,
    csi: int,
    cfg: GridConfig,
)
    requires
        0 < csi <= 4096,
        current_pos.bounded(),
        closed1.contains(pos_key(current_pos)),
        closed1.contains(pos_key(start)) || in_open(open1, start),
        forall|p: Position, q: Position|
            #![trigger closed1.contains(pos_key(p)), step_adjacent(p, q, csi)]
            closed1.contains(pos_key(p)) && p != current_pos && step_adjacent(p, q, csi)
                && valid_pos(q, cfg) && !obs.contains(pos_key(q)) ==> covered(closed1, open1, q),
        forall|k2: int|
            0 <= k2 < 4 && valid_pos(nbr(current_pos, k2, csi), cfg) && !obs.contains(
                pos_key(#[trigger] nbr(current_pos, k2, csi)),
            ) ==> covered(closed1, open1, nbr(current_pos, k2, csi)),
    ensures
        frontier_ok(closed1, open1, start, obs, csi, cfg),
{
    assert forall|p: Position, q: Position|
        closed1.contains(pos_key(p)) && #[trigger] step_adjacent(p, q, csi) && valid_pos(q, cfg)
            && !obs.contains(#[trigger] pos_key(q)) implies (closed1.contains(pos_key(q))
        || in_open(open1, q)) by {
        if p == current_pos {
            lemma_adjacent_is_nbr(current_pos, q, csi);
            let k2 = choose|k2: int| 0 <= k2 < 4 && q == #[trigger] nbr(current_pos, k2, csi);
            assert(covered(closed1, open1, q));
        } else {
            assert(covered(closed1, open1, q));
        }
    };
}

/// A well-formed arena stays well formed when a record with a valid
/// back-pointer is appended.
proof fn lemma_arena_push(arena0: Seq<Node>, child: Node, start: Position, cfg: GridConfig)
    requires
        arena_wf(arena0, start, cfg),
        child.id == arena0.len(),
        child.parent_id is Some,
        0 <= parent_idx(child) < arena0.len(),
        step_adjacent(arena0[parent_idx(child)].pos, child.pos, cfg.cell_size as int),
    ensures
        arena_wf(arena0.push(child), start, cfg),
{
    let arena1 = arena0.push(child);
    assert forall|i: int| 0 <= i < arena1.len() implies (#[trigger] arena1[i]).id == i by {
        if i < arena0.len() {
            assert(arena1[i] == arena0[i]);
        } else {
            assert(arena1[i] == child);
        }
    };
    assert forall|i: int| 1 <= i < arena1.len() implies (#[trigger] arena1[i]).parent_id is Some
        && 0 <= parent_idx(arena1[i]) < i && step_adjacent(
        arena1[parent_idx(arena1[i])].pos,
        arena1[i].pos,
        cfg.cell_size as int,
    ) by {
        if i < arena0.len() {
            assert(arena1[i] == arena0[i]);
            assert(arena1[parent_idx(arena0[i])] == arena0[parent_idx(arena0[i])]);
        } else {
            assert(arena1[i] == child);
            assert(arena1[parent_idx(child)] == arena0[parent_idx(child)]);
        }
    };
}

/// Growing the arena leaves every open record well formed.
proof fn lemma_open_nodes_stable(
    open: Seq<Node>,
    arena0: Seq<Node>,
    arena1: Seq<Node>,
    start: Position,
    goal: Position,
    obs: Set<(i64, i64)>,
    cfg: GridConfig,
)
    requires
        forall|j: int|
            0 <= j < open.len() ==> open_node_ok(#[trigger] open[j], arena0, start, goal, obs, cfg),
        arena0.len() <= arena1.len(),
        forall|i: int| 0 <= i < arena0.len() ==> arena0[i] == #[trigger] arena1[i],
    ensures
        forall|j: int|
            0 <= j < open.len() ==> open_node_ok(#[trigger] open[j], arena1, start, goal, obs, cfg),
{
    assert forall|j: int| 0 <= j < open.len() implies open_node_ok(
        #[trigger] open[j],
        arena1,
        start,
        goal,
        obs,
        cfg,
    ) by {
        lemma_chain_stable(arena0, arena1, open[j].id as int, obs, cfg);
    };
}

/// Open positions survive in any open list that extends the given one
/// element-for-element at the same indices plus possibly more.
proof fn lemma_in_open_monotone(small: Seq<Node>, big: Seq<Node>, q: Position)
    requires
        in_open(small, q),
        small.len() <= big.len(),
        forall|j: int| 0 <= j < small.len() ==> small[j] == #[trigger] big[j],
    ensures
        in_open(big, q),
{
    let j = choose|j: int| 0 <= j < small.len() && (#[trigger] small[j]).pos == q;
    assert(big[j].pos == q);
}

/// One step of the cell lattice does not change a coordinate's residue.
proof fn lemma_lattice_step(a: int, b: int, s: int, cs: int)
    requires
        0 < cs,
        b == a + cs || b == a - cs || b == a,
        a % cs == s % cs,
    ensures
        b % cs == s % cs,
{
    if b == a + cs {
        vstd::arithmetic::div_mod::lemma_mod_add_multiples_vanish(a, cs);
    } else if b == a - cs {
        vstd::arithmetic::div_mod::lemma_mod_sub_multiples_vanish(a, cs);
    }
}



/// The cell in column `x`, row `y`, in coordinate units.
pub open spec fn cell_at(cfg: GridConfig, x: int, y: int) -> Position {
    Position { x: (x * cfg.cell_size) as i64, y: (y * cfg.cell_size) as i64 }
}

/// Column of the `k`-th cycle cell.
pub open spec fn zig_col(cfg: GridConfig, k: int) -> int {
    let h1 = cfg.height - 1;
    if k < cfg.width * h1 {
        k / h1
    } else {
        cfg.width - 1 - (k - cfg.width * h1)
    }
}

/// Row of the `k`-th cycle cell.
pub open spec fn zig_row(cfg: GridConfig, k: int) -> int {
    let h1 = cfg.height - 1;
    if k < cfg.width * h1 {
        let x = k / h1;
        let r = k % h1;
        if x % 2 == 0 {
            h1 - 1 - r
        } else {
            r
        }
    } else {
        h1
    }
}

/// The `k`-th cell of the boustrophedon covering cycle: even columns are
/// traversed bottom-to-top and odd columns top-to-bottom over the upper
/// `height - 1` rows, then the terminal row is swept back across all
/// columns, closing the loop.
pub open spec fn zig_cell(cfg: GridConfig, k: int) -> Position {
    cell_at(cfg, zig_col(cfg, k), zig_row(cfg, k))
}

/// A valid covering cycle: `width * height` pairwise distinct in-field
/// cells, with every consecutive pair, the wrap-around pair included,
/// exactly one grid step apart.
pub open spec fn cycle_wf(path: Seq<Position>, cfg: GridConfig) -> bool {
    &&& path.len() == cfg.width * cfg.height
    &&& forall|i: int, j: int| 0 <= i < j < path.len() ==> #[trigger] path[i] != #[trigger] path[j]
    &&& forall|i: int|
        0 <= i < path.len() - 1 ==> step_adjacent(#[trigger] path[i], path[i + 1], cfg.cell_size as int)
    &&& step_adjacent(path[path.len() - 1], path[0], cfg.cell_size as int)
    &&& forall|i: int| 0 <= i < path.len() ==> valid_pos(#[trigger] path[i], cfg)
}

/// Column and row of every cycle index lie inside the grid, and the index
/// can be recovered from them: the cycle visits pairwise distinct cells.
proof fn lemma_zig_coords(cfg: GridConfig, k: int)
    requires
        cfg.cycle_compatible(),
        0 <= k < cfg.width * cfg.height,
    ensures
        0 <= zig_col(cfg, k) < cfg.width,
        0 <= zig_row(cfg, k) < cfg.height,
        k < cfg.width * (cfg.height - 1) ==> zig_row(cfg, k) < cfg.height - 1,
        k >= cfg.width * (cfg.height - 1) ==> zig_row(cfg, k) == cfg.height - 1,
        zig_index(cfg, zig_col(cfg, k), zig_row(cfg, k)) == k,
{
    let w = cfg.width as int;
    let h1 = cfg.height - 1 as int;
    assert(w * cfg.height == w * h1 + w) by (nonlinear_arith)
        requires
            cfg.height >= 1,
            w == cfg.width,
            h1 == cfg.height - 1,
    ;
    if k < w * h1 {
        vstd::arithmetic::div_mod::lemma_fundamental_div_mod(k, h1);
        vstd::arithmetic::div_mod::lemma_mod_bound(k, h1);
        let x = k / h1;
        let r = k % h1;
        assert(0 <= x && x < w) by (nonlinear_arith)
            requires
                k == h1 * x + r,
                0 <= r < h1,
                0 <= k < w * h1,
                0 < h1,
        ;
        assert(zig_index(cfg, x, zig_row(cfg, k)) == k);
    } else {
        assert(zig_col(cfg, k) == w - 1 - (k - w * h1));
        assert(0 <= zig_col(cfg, k) < w);
    }
}

/// The cycle index of the cell in column `x`, row `y`: the inverse of
/// `zig_col`/`zig_row`.
pub open spec fn zig_index(cfg: GridConfig, x: int, y: int) -> int {
    let h1 = cfg.height - 1;
    if y < h1 {
        x * h1 + (if x % 2 == 0 {
            h1 - 1 - y
        } else {
            y
        })
    } else {
        cfg.width * h1 + (cfg.width - 1 - x)
    }
}

/// Scaling distinct cell coordinates by the cell size keeps them distinct,
/// and one-cell differences become one-step differences.
proof fn lemma_cell_at_facts(cfg: GridConfig, x1: int, y1: int, x2: int, y2: int)
    requires
        cfg.wf(),
        0 <= x1 <= 4096,
        0 <= y1 <= 4096,
        0 <= x2 <= 4096,
        0 <= y2 <= 4096,
    ensures
        cell_at(cfg, x1, y1).x == x1 * cfg.cell_size && cell_at(cfg, x1, y1).y == y1 * cfg.cell_size,
        cell_at(cfg, x2, y2).x == x2 * cfg.cell_size && cell_at(cfg, x2, y2).y == y2 * cfg.cell_size,
        (cell_at(cfg, x1, y1) == cell_at(cfg, x2, y2)) == (x1 == x2 && y1 == y2),
        x1 == x2 && (y1 == y2 + 1 || y2 == y1 + 1) ==> step_adjacent(
            cell_at(cfg, x1, y1),
            cell_at(cfg, x2, y2),
            cfg.cell_size as int,
        ),
        y1 == y2 && (x1 == x2 + 1 || x2 == x1 + 1) ==> step_adjacent(
            cell_at(cfg, x1, y1),
            cell_at(cfg, x2, y2),
            cfg.cell_size as int,
        ),
{
    let cs = cfg.cell_size as int;
    assert(0 <= x1 * cs <= 4096 * 4096 && 0 <= y1 * cs <= 4096 * 4096 && 0 <= x2 * cs <= 4096
        * 4096 && 0 <= y2 * cs <= 4096 * 4096) by (nonlinear_arith)
        requires
            0 <= x1 <= 4096,
            0 <= y1 <= 4096,
            0 <= x2 <= 4096,
            0 <= y2 <= 4096,
            0 <= cs <= 4096,
    ;
    assert((x1 * cs == x2 * cs) == (x1 == x2) && (y1 * cs == y2 * cs) == (y1 == y2)) by (
    nonlinear_arith)
        requires
            0 < cs,
    ;
    assert(x1 == x2 + 1 ==> x1 * cs == x2 * cs + cs) by (nonlinear_arith);
    assert(x2 == x1 + 1 ==> x2 * cs == x1 * cs + cs) by (nonlinear_arith);
    assert(y1 == y2 + 1 ==> y1 * cs == y2 * cs + cs) by (nonlinear_arith);
    assert(y2 == y1 + 1 ==> y2 * cs == y1 * cs + cs) by (nonlinear_arith);
}

/// The covering cycle is valid: its cells are pairwise distinct, lie
/// inside the field, and each consecutive pair, wrap-around included, is
/// one grid step apart.
proof fn lemma_zig_cycle(cfg: GridConfig)
    requires
        cfg.cycle_compatible(),
    ensures
        forall|k1: int, k2: int|
            0 <= k1 < k2 < cfg.width * cfg.height ==> #[trigger] zig_cell(cfg, k1) != #[trigger] zig_cell(cfg, k2),
        forall|k: int|
            0 <= k < cfg.width * cfg.height - 1 ==> step_adjacent(
                #[trigger] zig_cell(cfg, k),
                zig_cell(cfg, k + 1),
                cfg.cell_size as int,
            ),
        step_adjacent(
            zig_cell(cfg, cfg.width * cfg.height - 1),
            zig_cell(cfg, 0),
            cfg.cell_size as int,
        ),
        forall|k: int|
            0 <= k < cfg.width * cfg.height ==> valid_pos(#[trigger] zig_cell(cfg, k), cfg),
{
    let w = cfg.width as int;
    let h = cfg.height as int;
    let h1 = h - 1;
    let cs = cfg.cell_size as int;
    let n = w * h;
    assert(w * h == w * h1 + w) by (nonlinear_arith)
        requires
            h == h1 + 1,
    ;
    assert(n >= 4) by (nonlinear_arith)
        requires
            n == w * h,
            w >= 2,
            h >= 2,
    ;

    // distinctness
    assert forall|k1: int, k2: int| 0 <= k1 < k2 < n implies #[trigger] zig_cell(cfg, k1)
        != #[trigger] zig_cell(cfg, k2) by {
        lemma_zig_coords(cfg, k1);
        lemma_zig_coords(cfg, k2);
        lemma_cell_at_facts(cfg, zig_col(cfg, k1), zig_row(cfg, k1), zig_col(cfg, k2), zig_row(cfg, k2));
        if zig_cell(cfg, k1) == zig_cell(cfg, k2) {
            assert(zig_col(cfg, k1) == zig_col(cfg, k2) && zig_row(cfg, k1) == zig_row(cfg, k2));
            assert(k1 == k2);
        }
    };

    // in-field validity
    assert forall|k: int| 0 <= k < n implies valid_pos(#[trigger] zig_cell(cfg, k), cfg) by {
        lemma_zig_coords(cfg, k);
        lemma_cell_at_facts(cfg, zig_col(cfg, k), zig_row(cfg, k), 0, 0);
        assert(zig_col(cfg, k) * cs < w * cs && zig_row(cfg, k) * cs < h * cs) by (nonlinear_arith)
            requires
                zig_col(cfg, k) < w,
                zig_row(cfg, k) < h,
                0 < cs,
        ;
        assert(0 <= zig_col(cfg, k) * cs && 0 <= zig_row(cfg, k) * cs) by (nonlinear_arith)
            requires
                0 <= zig_col(cfg, k),
                0 <= zig_row(cfg, k),
                0 < cs,
        ;
    };

    // consecutive adjacency
    assert forall|k: int| 0 <= k < n - 1 implies step_adjacent(
        #[trigger] zig_cell(cfg, k),
        zig_cell(cfg, k + 1),
        cs,
    ) by {
        lemma_zig_adjacent(cfg, k);
    };

    // wrap-around adjacency
    lemma_zig_coords(cfg, n - 1);
    assert(zig_col(cfg, n - 1) == 0 && zig_row(cfg, n - 1) == h1);
    assert(0 < w * h1) by (nonlinear_arith)
        requires
            w >= 2,
            h1 >= 1,
    ;
    vstd::arithmetic::div_mod::lemma_fundamental_div_mod_converse(0, h1, 0, 0);
    assert(zig_col(cfg, 0) == 0 && zig_row(cfg, 0) == h1 - 1);
    lemma_cell_at_facts(cfg, 0, h1, 0, h1 - 1);
}

/// Cells `k` and `k + 1` of the cycle are one grid step apart.
proof fn lemma_zig_adjacent(cfg: GridConfig, k: int)
    requires
        cfg.cycle_compatible(),
        0 <= k < cfg.width * cfg.height - 1,
    ensures
        step_adjacent(zig_cell(cfg, k), zig_cell(cfg, k + 1), cfg.cell_size as int),
{
    let w = cfg.width as int;
    let h = cfg.height as int;
    let h1 = h - 1;
    let cs = cfg.cell_size as int;
    assert(w * h == w * h1 + w) by (nonlinear_arith)
        requires
            h == h1 + 1,
    ;
    lemma_zig_coords(cfg, k);
    lemma_zig_coords(cfg, k + 1);
    let x1 = zig_col(cfg, k);
    let y1 = zig_row(cfg, k);
    let x2 = zig_col(cfg, k + 1);
    let y2 = zig_row(cfg, k + 1);
    lemma_cell_at_facts(cfg, x1, y1, x2, y2);
    if k + 1 < w * h1 {
        vstd::arithmetic::div_mod::lemma_fundamental_div_mod(k, h1);
        vstd::arithmetic::div_mod::lemma_mod_bound(k, h1);
        let r = k % h1;
        if r < h1 - 1 {
            // the next cell continues the same column
            vstd::arithmetic::div_mod::lemma_fundamental_div_mod_converse(k + 1, h1, k / h1, r + 1);
            assert(x2 == x1 && (y2 == y1 + 1 || y1 == y2 + 1));
        } else {
            // the next cell starts the neighboring column at the same row
            assert(k + 1 == h1 * (k / h1) + h1);
            assert(h1 * (k / h1) + h1 == h1 * (k / h1 + 1)) by (nonlinear_arith);
            vstd::arithmetic::div_mod::lemma_fundamental_div_mod_converse(k + 1, h1, k / h1 + 1, 0);
            assert(x2 == x1 + 1);
            assert(x2 % 2 != x1 % 2) by (nonlinear_arith)
                requires
                    x2 == x1 + 1,
            ;
            assert(y1 == y2);
        }
    } else if k < w * h1 {
        // the last column cell meets the terminal row
        vstd::arithmetic::div_mod::lemma_fundamental_div_mod(k, h1);
        vstd::arithmetic::div_mod::lemma_mod_bound(k, h1);
        assert(k == w * h1 - 1);
        assert(h1 * (w - 1) + (h1 - 1) == w * h1 - 1) by (nonlinear_arith);
        vstd::arithmetic::div_mod::lemma_fundamental_div_mod_converse(k, h1, w - 1, h1 - 1);
        assert(x1 == w - 1);
        assert((w - 1) % 2 == 1) by {
            vstd::arithmetic::div_mod::lemma_fundamental_div_mod(w, 2);
            vstd::arithmetic::div_mod::lemma_fundamental_div_mod_converse(w - 1, 2, w / 2 - 1, 1);
        };
        assert(y1 == h1 - 1);
        assert(x2 == w - 1 && y2 == h1);
    } else {
        // two cells of the terminal row
        assert(x2 == x1 - 1 && y1 == y2);
    }
}



/// A sequence that matches the covering cycle cell-for-cell is a valid
/// covering cycle.
proof fn lemma_cycle_wf_from_pointwise(path: Seq<Position>, cfg: GridConfig)
    requires
        cfg.cycle_compatible(),
        path.len() == cfg.width * cfg.height,
        forall|k: int| 0 <= k < path.len() ==> path[k] == #[trigger] zig_cell(cfg, k),
    ensures
        cycle_wf(path, cfg),
        path.len() >= 4,
{
    lemma_zig_cycle(cfg);
    assert(path.len() >= 4) by (nonlinear_arith)
        requires
            path.len() == cfg.width * cfg.height,
            cfg.width >= 2,
            cfg.height >= 2,
    ;
    assert forall|a: int, b: int| 0 <= a < b < path.len() implies #[trigger] path[a]
        != #[trigger] path[b] by {
        assert(path[a] == zig_cell(cfg, a) && path[b] == zig_cell(cfg, b));
    };
    assert forall|a: int| 0 <= a < path.len() - 1 implies step_adjacent(
        #[trigger] path[a],
        path[a + 1],
        cfg.cell_size as int,
    ) by {
        assert(path[a] == zig_cell(cfg, a) && path[a + 1] == zig_cell(cfg, a + 1));
    };
    assert forall|a: int| 0 <= a < path.len() implies valid_pos(#[trigger] path[a], cfg) by {
        assert(path[a] == zig_cell(cfg, a));
    };
}

/// The cycle driver: a precomputed covering cycle, a cursor aligned to the
/// creature's head, and an embedded reusable searcher.
pub struct Solver {
    pub searcher: Searcher,
    pub cursor: usize,
    pub path: Vec<Position>,
    pub config: GridConfig,
}

impl Solver {
    /// The grid geometry this solver was built for.
    pub open spec fn cfg(self) -> GridConfig {
        self.config
    }

    /// The cycle cursor: it always indexes the cell equal to, or the
    /// immediate predecessor of, the creature's current head.
    pub open spec fn spec_cursor(self) -> int {
        self.cursor as int
    }

    /// Well-formedness: a cycle-compatible grid, a searcher for the same
    /// grid, and, once generated, a valid covering cycle with the cursor
    /// inside it.
    pub open spec fn wf(self) -> bool {
        &&& self.cfg().cycle_compatible()
        &&& self.searcher.cfg() == self.cfg()
        &&& (self.path@.len() > 0 ==> cycle_wf(self.path@, self.cfg()) && self.spec_cursor()
            < self.path@.len())
        &&& (self.path@.len() == 0 ==> self.spec_cursor() == 0)
    }

    /// A solver for the given grid; grid dimensions incompatible with the
    /// cycle construction are rejected here, at construction time.
    pub fn new(config: GridConfig) -> (r: Result<Solver, SolverError>)
        ensures
            match r {
                Ok(s) => {
                    &&& config.cycle_compatible()
                    &&& s.wf()
                    &&& s.cfg() == config
                    &&& s.path@.len() == 0
                    &&& s.spec_cursor() == 0
                },
                Err(e) => e == SolverError::MalformedConfig && !config.cycle_compatible(),
            },
    {
        if !config.is_cycle_compatible() {
            return Err(SolverError::MalformedConfig);
        }
        let searcher = match Searcher::new(config) {
            Ok(s) => s,
            Err(_) => {
                proof {
                    assert(false);
                }
                return Err(SolverError::MalformedConfig);
            },
        };
        Ok(Solver { searcher, cursor: 0, path: Vec::new(), config })
    }

    /// Deterministically build the covering cycle: even columns are climbed
    /// through the upper rows, odd columns descended, and the terminal row
    /// is swept back across all columns to close the loop.
    #[verifier::rlimit(100)]
    pub fn gen_zig_zag_path(&mut self)
        requires
            old(self).wf(),
        ensures
            final(self).wf(),
            final(self).cfg() == old(self).cfg(),
            final(self).searcher == old(self).searcher,
            final(self).spec_cursor() == old(self).spec_cursor() || final(self).spec_cursor() == 0,
            final(self).path@.len() == old(self).cfg().width * old(self).cfg().height,
            forall|k: int|
                0 <= k < final(self).path@.len() ==> final(self).path@[k] == zig_cell(
                    old(self).cfg(),
                    k,
                ),
            cycle_wf(final(self).path@, old(self).cfg()),
    {
        let ghost cfg = self.config;
        self.path.clear();
        let w = self.config.width;
        let h = self.config.height;
        let cs = self.config.cell_size;
        let h1 = h - 1;
        proof {
            vstd::arithmetic::mul::lemma_mul_upper_bound(w as int, 4096, h1 as int, 4096);
            vstd::arithmetic::mul::lemma_mul_nonnegative(w as int, h1 as int);
        }
        let mut x: usize = 0;
        while x < w
            invariant
                self.config == cfg,
                cfg.cycle_compatible(),
                w == cfg.width,
                h == cfg.height,
                cs == cfg.cell_size,
                h1 == h - 1,
                0 <= x <= w,
                self.searcher == old(self).searcher,
                self.cursor == old(self).cursor,
                self.path@.len() == x * h1,
                forall|k: int|
                    0 <= k < self.path@.len() ==> self.path@[k] == #[trigger] zig_cell(cfg, k),
            decreases w - x,
        {
            proof {
                vstd::arithmetic::mul::lemma_mul_upper_bound(x as int, 4096, h1 as int, 4096);
                vstd::arithmetic::mul::lemma_mul_nonnegative(x as int, h1 as int);
                vstd::arithmetic::mul::lemma_mul_upper_bound(x as int, 4096, cs as int, 4096);
                vstd::arithmetic::mul::lemma_mul_nonnegative(x as int, cs as int);
            }
            let mut r: usize = 0;
            while r < h1
                invariant
                    self.config == cfg,
                    cfg.cycle_compatible(),
                    w == cfg.width,
                    h == cfg.height,
                    cs == cfg.cell_size,
                    h1 == h - 1,
                    0 <= x < w,
                    0 <= r <= h1,
                    0 <= x * h1 <= 0x100_0000,
                    0 <= x * cs <= 0x100_0000,
                    self.searcher == old(self).searcher,
                    self.cursor == old(self).cursor,
                    self.path@.len() == x * h1 + r,
                    forall|k: int|
                        0 <= k < self.path@.len() ==> self.path@[k] == #[trigger] zig_cell(cfg, k),
                decreases h1 - r,
            {
                let y = if x % 2 == 0 {
                    h1 - 1 - r
                } else {
                    r
                };
                proof {
                    vstd::arithmetic::mul::lemma_mul_upper_bound(y as int, 4096, cs as int, 4096);
                    vstd::arithmetic::mul::lemma_mul_nonnegative(y as int, cs as int);
                }
                self.path.push(Position { x: (x * cs) as i64, y: (y * cs) as i64 });
                proof {
                    let k = x * h1 + r;
                    assert(k < w * h1) by (nonlinear_arith)
                        requires
                            k == x * h1 + r,
                            0 <= r < h1,
                            0 <= x < w,
                    ;
                    vstd::arithmetic::div_mod::lemma_fundamental_div_mod_converse(
                        k as int,
                        h1 as int,
                        x as int,
                        r as int,
                    );
                    assert(zig_col(cfg, k as int) == x && zig_row(cfg, k as int) == y);
                    assert(self.path@[k as int] == zig_cell(cfg, k as int));
                    assert forall|k2: int| 0 <= k2 < self.path@.len() implies self.path@[k2]
                        == #[trigger] zig_cell(cfg, k2) by {};
                }
                r += 1;
            }
            x += 1;
            proof {
                assert(self.path@.len() == x * h1) by (nonlinear_arith)
                    requires
                        self.path@.len() == (x - 1) * h1 + h1,
                ;
            }
        }
        let mut i: usize = 0;
        proof {
            vstd::arithmetic::mul::lemma_mul_upper_bound(w as int, 4096, h as int, 4096);
        }
        while i < w
            invariant
                self.config == cfg,
                cfg.cycle_compatible(),
                w == cfg.width,
                h == cfg.height,
                cs == cfg.cell_size,
                h1 == h - 1,
                0 <= i <= w,
                0 <= w * h1 <= 0x100_0000,
                self.searcher == old(self).searcher,
                self.cursor == old(self).cursor,
                self.path@.len() == w * h1 + i,
                forall|k: int|
                    0 <= k < self.path@.len() ==> self.path@[k] == #[trigger] zig_cell(cfg, k),
            decreases w - i,
        {
            let xx = w - 1 - i;
            proof {
                vstd::arithmetic::mul::lemma_mul_upper_bound(xx as int, 4096, cs as int, 4096);
                vstd::arithmetic::mul::lemma_mul_nonnegative(xx as int, cs as int);
                vstd::arithmetic::mul::lemma_mul_upper_bound(h1 as int, 4096, cs as int, 4096);
                vstd::arithmetic::mul::lemma_mul_nonnegative(h1 as int, cs as int);
            }
            self.path.push(Position { x: (xx * cs) as i64, y: (h1 * cs) as i64 });
            proof {
                let k = w * h1 + i;
                assert(zig_col(cfg, k as int) == xx && zig_row(cfg, k as int) == h1);
                assert(self.path@[k as int] == zig_cell(cfg, k as int));
            }
            i += 1;
        }
        proof {
            assert(self.path@.len() == w * h) by (nonlinear_arith)
                requires
                    self.path@.len() == w * h1 + w,
                    h == h1 + 1,
            ;
            lemma_cycle_wf_from_pointwise(self.path@, cfg);
        }
        if self.cursor >= self.path.len() {
            self.cursor = 0;
        }
    }

    /// First cycle index of `pos`, if the cycle passes through it at all.
    pub fn get_ham_path_index(&self, pos: Position) -> (r: Option<usize>)
        ensures
            match r {
                Some(i) => i < self.path@.len() && self.path@[i as int] == pos && forall|j: int|
                    0 <= j < i ==> self.path@[j] != pos,
                None => forall|j: int| 0 <= j < self.path@.len() ==> self.path@[j] != pos,
            },
    {
        let mut i: usize = 0;
        while i < self.path.len()
            invariant
                0 <= i <= self.path@.len(),
                forall|j: int| 0 <= j < i ==> self.path@[j] != pos,
            decreases self.path@.len() - i,
        {
            if self.path[i] == pos {
                return Some(i);
            }
            i += 1;
        }
        None
    }

    /// The cycle index of the creature's head, if the head lies on the
    /// cycle.
    pub fn match_starting_pos(&self, tail: &Tail) -> (r: Option<usize>)
        ensures
            match r {
                Some(i) => tail@.len() > 0 && i < self.path@.len() && self.path@[i as int]
                    == tail@[0] && forall|j: int| 0 <= j < i ==> self.path@[j] != tail@[0],
                None => tail@.len() == 0 || forall|j: int|
                    0 <= j < self.path@.len() ==> self.path@[j] != tail@[0],
            },
    {
        if tail.len() == 0 {
            return None;
        }
        let head = tail[0];
        self.get_ham_path_index(head)
    }

    /// Align the cursor to the creature: set it to the predecessor index of
    /// the head's cycle cell. Fails with a Desynchronization error, leaving
    /// the solver untouched, exactly when the head is not on the cycle.
    pub fn init(&mut self, tail: &Tail) -> (r: Result<(), SolverError>)
        requires
            old(self).wf(),
            old(self).path@.len() > 0,
        ensures
            final(self).wf(),
            final(self).cfg() == old(self).cfg(),
            final(self).path == old(self).path,
            final(self).searcher == old(self).searcher,
            match r {
                Ok(()) => {
                    &&& tail@.len() > 0
                    &&& final(self).path@[(final(self).spec_cursor() + 1) % (
                    final(self).path@.len() as int)] == tail@[0]
                },
                Err(e) => {
                    &&& e == SolverError::Desynchronization
                    &&& *final(self) == *old(self)
                    &&& (tail@.len() == 0 || forall|j: int|
                        0 <= j < old(self).path@.len() ==> old(self).path@[j] != tail@[0])
                },
            },
    {
        let starting_pos = match self.match_starting_pos(tail) {
            Some(i) => i,
            None => {
                return Err(SolverError::Desynchronization);
            },
        };
        let len = self.path.len();
        self.cursor = if starting_pos == 0 {
            len - 1
        } else {
            starting_pos - 1
        };
        proof {
            let l = len as int;
            if starting_pos == 0 {
                assert(l % l == 0) by {
                    vstd::arithmetic::div_mod::lemma_mod_multiples_basic(1, l);
                };
            } else {
                vstd::arithmetic::div_mod::lemma_small_mod(starting_pos as nat, len as nat);
            }
        }
        Ok(())
    }

    /// Advance the cursor by one, wrapping past the end of the cycle.
    fn inc_cursor(&mut self)
        requires
            old(self).wf(),
            old(self).path@.len() > 0,
        ensures
            final(self).wf(),
            final(self).cfg() == old(self).cfg(),
            final(self).path == old(self).path,
            final(self).searcher == old(self).searcher,
            final(self).spec_cursor() == (old(self).spec_cursor() + 1) % (
            old(self).path@.len() as int),
    {
        let end = self.path.len() - 1;
        if self.cursor == end {
            self.cursor = 0;
            proof {
                vstd::arithmetic::div_mod::lemma_mod_multiples_basic(1, self.path@.len() as int);
            }
        } else {
            self.cursor = self.cursor + 1;
            proof {
                vstd::arithmetic::div_mod::lemma_small_mod(
                    self.cursor as nat,
                    self.path@.len() as nat,
                );
            }
        }
    }

    /// One tick of the cycle strategy: advance the cursor, check that it
    /// landed on the creature's head, and return the direction from the
    /// head to the next cycle cell; a legal single step that never revisits
    /// a cell the cycle has just covered, since the cycle has no repeats.
    /// Fails with a Desynchronization error, leaving the solver untouched,
    /// exactly when the head is not at the cell after the cursor.
    #[verifier::rlimit(30)]
    pub fn make_move(&mut self, tail: &Tail, _target: Position) -> (r: Result<
        Direction,
        SolverError,
    >)
        requires
            old(self).wf(),
            old(self).path@.len() > 0,
        ensures
            final(self).wf(),
            final(self).cfg() == old(self).cfg(),
            final(self).path == old(self).path,
            final(self).searcher == old(self).searcher,
            match r {
                Ok(d) => {
                    let l = old(self).path@.len() as int;
                    let c1 = (old(self).spec_cursor() + 1) % l;
                    &&& tail@.len() > 0
                    &&& old(self).path@[c1] == tail@[0]
                    &&& final(self).spec_cursor() == c1
                    &&& Some(d) == spec_to_direction(
                        tail@[0],
                        old(self).path@[(c1 + 1) % l],
                        old(self).cfg().cell_size as int,
                    )
                },
                Err(e) => {
                    let l = old(self).path@.len() as int;
                    &&& e == SolverError::Desynchronization
                    &&& *final(self) == *old(self)
                    &&& (tail@.len() == 0 || old(self).path@[(old(self).spec_cursor() + 1) % l]
                        != tail@[0])
                },
            },
    {
        if tail.len() == 0 {
            return Err(SolverError::Desynchronization);
        }
        let head = tail[0];
        let len = self.path.len();
        let c1 = if self.cursor == len - 1 {
            0
        } else {
            self.cursor + 1
        };
        proof {
            let l = len as int;
            if self.cursor == len - 1 {
                vstd::arithmetic::div_mod::lemma_mod_multiples_basic(1, l);
            } else {
                vstd::arithmetic::div_mod::lemma_small_mod((self.cursor + 1) as nat, len as nat);
            }
        }
        if !(self.path[c1] == head) {
            return Err(SolverError::Desynchronization);
        }
        self.inc_cursor();
        proof {
            assert(self.cursor == c1);
        }
        let c2 = if c1 == len - 1 {
            0
        } else {
            c1 + 1
        };
        proof {
            let l = len as int;
            if c1 == len - 1 {
                vstd::arithmetic::div_mod::lemma_mod_multiples_basic(1, l);
            } else {
                vstd::arithmetic::div_mod::lemma_small_mod((c1 + 1) as nat, len as nat);
            }
            assert(step_adjacent(self.path@[c1 as int], self.path@[c2 as int], self.config.cell_size as int))
                by {
                if c1 == len - 1 {
                    assert(c2 == 0);
                } else {
                    assert(c2 == c1 + 1);
                }
            };
            lemma_valid_pos_bounded(self.path@[c1 as int], self.config);
            lemma_valid_pos_bounded(self.path@[c2 as int], self.config);
        }
        let next = self.path[c2];
        match Position::to_direction(head, next, self.config.cell_size) {
            Some(d) => Ok(d),
            None => {
                proof {
                    assert(false);
                }
                Err(SolverError::Desynchronization)
            },
        }
    }
}


/// The Manhattan distance obeys the triangle inequality.
proof fn lemma_mhtn_triangle(a: Position, b: Position, c: Position)
    ensures
        spec_mhtn(a, c) <= spec_mhtn(a, b) + spec_mhtn(b, c),
{
}

/// Congruent coordinates that differ, differ by at least the modulus.
proof fn lemma_mod_gap(a: int, b: int, m: int)
    requires
        0 < m,
        a % m == b % m,
        a != b,
    ensures
        a > b ==> a - b >= m,
        b > a ==> b - a >= m,
{
    vstd::arithmetic::div_mod::lemma_fundamental_div_mod(a, m);
    vstd::arithmetic::div_mod::lemma_fundamental_div_mod(b, m);
    assert((a > b ==> a - b >= m) && (b > a ==> b - a >= m)) by (nonlinear_arith)
        requires
            a == m * (a / m) + a % m,
            b == m * (b / m) + b % m,
            a % m == b % m,
            a != b,
            0 < m,
    ;
}

/// From a cell of the lattice of `t`, one step toward `t` stays in the
/// field, stays on the lattice, and shortens the distance to `t` by
/// exactly one step.
proof fn step_toward(v: Position, t: Position, cfg: GridConfig) -> (w: Position)
    requires
        cfg.wf(),
        valid_pos(v, cfg),
        valid_pos(t, cfg),
        key_on_lattice(pos_key(v), t, cfg.cell_size as int),
        v != t,
    ensures
        valid_pos(w, cfg),
        key_on_lattice(pos_key(w), t, cfg.cell_size as int),
        step_adjacent(v, w, cfg.cell_size as int),
        step_adjacent(w, v, cfg.cell_size as int),
        spec_mhtn(t, w) == spec_mhtn(t, v) - cfg.cell_size,
        spec_mhtn(w, t) == spec_mhtn(v, t) - cfg.cell_size,
{
    let cs = cfg.cell_size as int;
    lemma_field_bounds(cfg);
    if v.x != t.x {
        lemma_mod_gap(v.x as int, t.x as int, cs);
        let w = if v.x > t.x {
            Position { x: (v.x - cs) as i64, y: v.y }
        } else {
            Position { x: (v.x + cs) as i64, y: v.y }
        };
        lemma_lattice_step(v.x as int, w.x as int, t.x as int, cs);
        lemma_lattice_step(v.y as int, v.y as int, t.y as int, cs);
        w
    } else {
        lemma_mod_gap(v.y as int, t.y as int, cs);
        let w = if v.y > t.y {
            Position { x: v.x, y: (v.y - cs) as i64 }
        } else {
            Position { x: v.x, y: (v.y + cs) as i64 }
        };
        lemma_lattice_step(v.y as int, w.y as int, t.y as int, cs);
        lemma_lattice_step(v.x as int, v.x as int, t.x as int, cs);
        w
    }
}

/// On an obstacle-free field a walk exists between any two cells of the
/// same lattice.
proof fn lemma_walk_exists(a: Position, b: Position, cfg: GridConfig)
    requires
        cfg.wf(),
        valid_pos(a, cfg),
        valid_pos(b, cfg),
        key_on_lattice(pos_key(a), b, cfg.cell_size as int),
    ensures
        exists|w: Seq<Position>| is_free_walk(w, a, b, Set::<(i64, i64)>::empty(), cfg),
    decreases spec_mhtn(a, b),
{
    let obs0 = Set::<(i64, i64)>::empty();
    if a == b {
        let w = seq![a];
        assert(is_free_walk(w, a, b, obs0, cfg));
    } else {
        let m = step_toward(a, b, cfg);
        lemma_walk_exists(m, b, cfg);
        let w2 = choose|w2: Seq<Position>| is_free_walk(w2, m, b, obs0, cfg);
        let w = seq![a] + w2;
        assert(w[0] == a);
        assert(w[w.len() - 1] == w2[w2.len() - 1]);
        assert forall|i: int| 0 <= i < w.len() implies valid_pos(#[trigger] w[i], cfg) by {
            if i >= 1 {
                assert(w[i] == w2[i - 1]);
            }
        };
        assert forall|i: int| 0 <= i < w.len() - 1 implies step_adjacent(
            #[trigger] w[i],
            w[i + 1],
            cfg.cell_size as int,
        ) by {
            if i == 0 {
                assert(w[0] == a && w[1] == w2[0]);
            } else {
                assert(w[i] == w2[i - 1] && w[i + 1] == w2[i]);
            }
        };
        assert forall|i: int| 1 <= i < w.len() implies !obs0.contains(
            pos_key(#[trigger] w[i]),
        ) by {};
        assert(is_free_walk(w, a, b, obs0, cfg));
    }
}

/// The accumulated cost of a chain is at least the Manhattan distance its
/// endpoints are apart: the heuristic never overestimates.
proof fn lemma_chain_g_lower(arena: Seq<Node>, i: int, start: Position, cfg: GridConfig)
    requires
        cfg.wf(),
        arena_wf(arena, start, cfg),
        0 <= i < arena.len(),
    ensures
        cfg.cell_size * chain_len(arena, i) >= spec_mhtn(start, arena[i].pos),
    decreases i,
{
    let cs = cfg.cell_size as int;
    if i == 0 {
        assert(chain_len(arena, 0) == 0);
    } else {
        let p = parent_idx(arena[i]);
        lemma_chain_g_lower(arena, p, start, cfg);
        lemma_mhtn_triangle(start, arena[p].pos, arena[i].pos);
        assert(spec_mhtn(arena[p].pos, arena[i].pos) == cs);
        assert(chain_len(arena, i) == 1 + chain_len(arena, p));
        assert(cs * (1 + chain_len(arena, p)) == cs + cs * chain_len(arena, p)) by (
        nonlinear_arith);
    }
}

/// An open record whose g cost is exact and whose position lies on some
/// shortest corridor from the start to `v`.
spec fn witness_for(n: Node, start: Position, v: Position) -> bool {
    &&& n.g_cost == spec_mhtn(start, n.pos)
    &&& spec_mhtn(start, n.pos) + spec_mhtn(n.pos, v) == spec_mhtn(start, v)
}

/// Accuracy bookkeeping for the closed set: every closed cell was expanded
/// with an exact g cost.
spec fn closed_g_ok(
    closed: Set<(i64, i64)>,
    closed_g: Map<(i64, i64), int>,
    start: Position,
) -> bool {
    forall|k: (i64, i64)|
        #[trigger] closed.contains(k) ==> closed_g.dom().contains(k) && closed_g[k] == spec_mhtn(
            start,
            Position { x: k.0, y: k.1 },
        )
}

/// The frontier property with cost bounds, on an obstacle-free field:
/// every in-field neighbor of a closed cell is closed or waits in the open
/// list with a g cost at most one step beyond the closed cell's.
spec fn frontier_g_ok(
    closed: Set<(i64, i64)>,
    closed_g: Map<(i64, i64), int>,
    open: Seq<Node>,
    cs: int,
    cfg: GridConfig,
) -> bool {
    forall|p: Position, q: Position|
        #![trigger closed.contains(pos_key(p)), step_adjacent(p, q, cs)]
        closed.contains(pos_key(p)) && step_adjacent(p, q, cs) && valid_pos(q, cfg)
            ==> closed.contains(pos_key(q)) || exists|j: int|
            0 <= j < open.len() && (#[trigger] open[j]).pos == q && open[j].g_cost <= closed_g[
                pos_key(p)
            ] + cs
}

/// The start record stays in the open list until the start cell itself is
/// expanded.
spec fn root_open_ok(closed: Set<(i64, i64)>, open: Seq<Node>, start: Position) -> bool {
    !closed.contains(pos_key(start)) ==> exists|j: int|
        0 <= j < open.len() && (#[trigger] open[j]).id == 0
}

/// On an obstacle-free field, as long as a cell is unexpanded, some open
/// record with an exact g cost lies on a shortest corridor toward it.
proof fn lemma_open_witness(
    open: Seq<Node>,
    arena: Seq<Node>,
    closed: Set<(i64, i64)>,
    closed_g: Map<(i64, i64), int>,
    start: Position,
    goal: Position,
    v: Position,
    cfg: GridConfig,
)
    requires
        cfg.wf(),
        valid_pos(start, cfg),
        valid_pos(v, cfg),
        key_on_lattice(pos_key(v), start, cfg.cell_size as int),
        !closed.contains(pos_key(v)),
        arena_wf(arena, start, cfg),
        forall|j: int|
            0 <= j < open.len() ==> open_node_ok(
                #[trigger] open[j],
                arena,
                start,
                goal,
                Set::<(i64, i64)>::empty(),
                cfg,
            ),
        closed_g_ok(closed, closed_g, start),
        frontier_g_ok(closed, closed_g, open, cfg.cell_size as int, cfg),
        root_open_ok(closed, open, start),
    ensures
        exists|j: int| 0 <= j < open.len() && witness_for(#[trigger] open[j], start, v),
    decreases spec_mhtn(start, v),
{
    let cs = cfg.cell_size as int;
    if v == start {
        let j = choose|j: int| 0 <= j < open.len() && (#[trigger] open[j]).id == 0;
        assert(open_node_ok(open[j], arena, start, goal, Set::<(i64, i64)>::empty(), cfg));
        assert(open[j].pos == start);
        assert(witness_for(open[j], start, v));
    } else {
        let w = step_toward(v, start, cfg);
        if closed.contains(pos_key(w)) {
            assert(step_adjacent(w, v, cs));
            assert(!closed.contains(pos_key(v)));
            let j = choose|j: int|
                0 <= j < open.len() && (#[trigger] open[j]).pos == v && open[j].g_cost
                    <= closed_g[pos_key(w)] + cs;
            assert(Position { x: pos_key(w).0, y: pos_key(w).1 } == w);
            assert(open[j].g_cost <= spec_mhtn(start, w) + cs);
            assert(spec_mhtn(start, w) + cs == spec_mhtn(start, v));
            assert(open_node_ok(open[j], arena, start, goal, Set::<(i64, i64)>::empty(), cfg));
            lemma_chain_g_lower(arena, open[j].id as int, start, cfg);
            assert(open[j].g_cost >= spec_mhtn(start, v));
            assert(witness_for(open[j], start, v));
        } else {
            lemma_open_witness(open, arena, closed, closed_g, start, goal, w, cfg);
            let j = choose|j: int| 0 <= j < open.len() && witness_for(#[trigger] open[j], start, w);
            let n = open[j];
            lemma_mhtn_triangle(start, n.pos, v);
            lemma_mhtn_triangle(n.pos, w, v);
            assert(spec_mhtn(w, v) == cs);
            assert(spec_mhtn(start, n.pos) + spec_mhtn(n.pos, v) <= spec_mhtn(start, w) + cs);
            assert(spec_mhtn(start, w) + cs == spec_mhtn(start, v));
            assert(witness_for(n, start, v));
        }
    }
}

/// On an obstacle-free field, every expansion pops a record whose g cost
/// is the exact distance from the start: the lowest-f rule together with a
/// consistent heuristic never expands a cell along a detour.
proof fn lemma_pop_accurate(
    open0: Seq<Node>,
    idx: int,
    arena: Seq<Node>,
    closed: Set<(i64, i64)>,
    closed_g: Map<(i64, i64), int>,
    start: Position,
    goal: Position,
    cfg: GridConfig,
)
    requires
        cfg.wf(),
        valid_pos(start, cfg),
        arena_wf(arena, start, cfg),
        0 <= idx < open0.len(),
        forall|j: int|
            0 <= j < open0.len() ==> open_node_ok(
                #[trigger] open0[j],
                arena,
                start,
                goal,
                Set::<(i64, i64)>::empty(),
                cfg,
            ),
        forall|j: int|
            0 <= j < open0.len() ==> open0[idx].f_cost <= (#[trigger] open0[j]).f_cost,
        closed_g_ok(closed, closed_g, start),
        frontier_g_ok(closed, closed_g, open0, cfg.cell_size as int, cfg),
        root_open_ok(closed, open0, start),
        !closed.contains(pos_key(open0[idx].pos)),
        valid_pos(open0[idx].pos, cfg),
    ensures
        open0[idx].g_cost == spec_mhtn(start, open0[idx].pos),
{
    let cs = cfg.cell_size as int;
    let cur = open0[idx];
    assert(open_node_ok(cur, arena, start, goal, Set::<(i64, i64)>::empty(), cfg));
    lemma_chain_g_lower(arena, cur.id as int, start, cfg);
    assert(cur.g_cost >= spec_mhtn(start, cur.pos));
    if cur.id == 0 {
        assert(cur.pos == start);
        assert(cur.g_cost == 0);
    } else {
        assert(chain_len(arena, cur.id as int) >= 1);
        assert(cur.g_cost >= cs) by (nonlinear_arith)
            requires
                cur.g_cost == cs * chain_len(arena, cur.id as int),
                chain_len(arena, cur.id as int) >= 1,
                cs > 0,
        ;
        lemma_open_witness(open0, arena, closed, closed_g, start, goal, cur.pos, cfg);
        let j = choose|j: int|
            0 <= j < open0.len() && witness_for(#[trigger] open0[j], start, cur.pos);
        let n = open0[j];
        assert(open_node_ok(n, arena, start, goal, Set::<(i64, i64)>::empty(), cfg));
        assert(cur.f_cost <= n.f_cost);
        if n.id == 0 {
            // the start record still carries zero costs; nothing beats it
            assert(n.f_cost == 0);
            assert(cur.h_cost >= 0);
            assert(cur.g_cost + cur.h_cost <= 0);
            assert(false);
        } else {
            assert(n.h_cost == spec_mhtn(n.pos, goal));
            lemma_mhtn_triangle(n.pos, cur.pos, goal);
            assert(n.f_cost == spec_mhtn(start, n.pos) + spec_mhtn(n.pos, goal));
            assert(n.f_cost <= spec_mhtn(start, cur.pos) + spec_mhtn(cur.pos, goal));
            assert(cur.h_cost == spec_mhtn(cur.pos, goal));
            assert(cur.g_cost <= spec_mhtn(start, cur.pos));
        }
    }
}


/// A g-bounded open witness survives a push.
proof fn lemma_bounded_witness_after_push(open0: Seq<Node>, n: Node, q: Position, b: int)
    requires
        exists|j: int|
            0 <= j < open0.len() && (#[trigger] open0[j]).pos == q && open0[j].g_cost <= b,
    ensures
        exists|j: int|
            0 <= j < open0.push(n).len() && (#[trigger] open0.push(n)[j]).pos == q && open0.push(
                n,
            )[j].g_cost <= b,
{
    let j = choose|j: int|
        0 <= j < open0.len() && (#[trigger] open0[j]).pos == q && open0[j].g_cost <= b;
    assert(open0.push(n)[j] == open0[j]);
}

/// A g-bounded open witness at a position other than the removed record's
/// survives a removal.
proof fn lemma_bounded_witness_after_remove(open0: Seq<Node>, idx: int, q: Position, b: int)
    requires
        0 <= idx < open0.len(),
        open0[idx].pos != q,
        exists|j: int|
            0 <= j < open0.len() && (#[trigger] open0[j]).pos == q && open0[j].g_cost <= b,
    ensures
        exists|j: int|
            0 <= j < open0.remove(idx).len() && (#[trigger] open0.remove(idx)[j]).pos == q
                && open0.remove(idx)[j].g_cost <= b,
{
    let j = choose|j: int|
        0 <= j < open0.len() && (#[trigger] open0[j]).pos == q && open0[j].g_cost <= b;
    if j < idx {
        assert(open0.remove(idx)[j] == open0[j]);
    } else {
        assert(open0.remove(idx)[j - 1] == open0[j]);
    }
}

/// Removing an open record whose position is already closed keeps the
/// g-bounded frontier property.
proof fn lemma_frontier_g_after_remove(
    closed: Set<(i64, i64)>,
    closed_g: Map<(i64, i64), int>,
    open0: Seq<Node>,
    idx: int,
    csi: int,
    cfg: GridConfig,
)
    requires
        0 <= idx < open0.len(),
        frontier_g_ok(closed, closed_g, open0, csi, cfg),
        closed.contains(pos_key(open0[idx].pos)),
    ensures
        frontier_g_ok(closed, closed_g, open0.remove(idx), csi, cfg),
{
    assert forall|p: Position, q: Position|
        closed.contains(pos_key(p)) && #[trigger] step_adjacent(p, q, csi) && valid_pos(
            q,
            cfg,
        ) implies (closed.contains(pos_key(q)) || exists|j: int|
        0 <= j < open0.remove(idx).len() && (#[trigger] open0.remove(idx)[j]).pos == q && open0
            .remove(idx)[j].g_cost <= closed_g[pos_key(p)] + csi) by {
        if !closed.contains(pos_key(q)) {
            assert(q != open0[idx].pos) by {
                if q == open0[idx].pos {
                    assert(closed.contains(pos_key(q)));
                }
            };
            lemma_bounded_witness_after_remove(open0, idx, q, closed_g[pos_key(p)] + csi);
        }
    };
}

/// Closing the position of the record just removed keeps the g-bounded
/// frontier of every other closed cell, against the grown bookkeeping.
proof fn lemma_frontier_g_split_after_close(
    closed0: Set<(i64, i64)>,
    closed_g0: Map<(i64, i64), int>,
    open0: Seq<Node>,
    idx: int,
    cur: Node,
    csi: int,
    cfg: GridConfig,
)
    requires
        0 <= idx < open0.len(),
        open0[idx] == cur,
        frontier_g_ok(closed0, closed_g0, open0, csi, cfg),
        !closed0.contains(pos_key(cur.pos)),
    ensures
        forall|p: Position, q: Position|
            #![trigger closed0.insert(pos_key(cur.pos)).contains(pos_key(p)), step_adjacent(p, q, csi)]
            closed0.insert(pos_key(cur.pos)).contains(pos_key(p)) && p != cur.pos && step_adjacent(
                p,
                q,
                csi,
            ) && valid_pos(q, cfg) ==> closed0.insert(pos_key(cur.pos)).contains(pos_key(q))
                || exists|j: int|
                0 <= j < open0.remove(idx).len() && (#[trigger] open0.remove(idx)[j]).pos == q
                    && open0.remove(idx)[j].g_cost <= closed_g0.insert(
                    pos_key(cur.pos),
                    cur.g_cost as int,
                )[pos_key(p)] + csi,
{
    let closed1 = closed0.insert(pos_key(cur.pos));
    let closed_g1 = closed_g0.insert(pos_key(cur.pos), cur.g_cost as int);
    assert forall|p: Position, q: Position|
        closed1.contains(pos_key(p)) && p != cur.pos && #[trigger] step_adjacent(p, q, csi)
            && valid_pos(q, cfg) implies (closed1.contains(pos_key(q)) || exists|j: int|
        0 <= j < open0.remove(idx).len() && (#[trigger] open0.remove(idx)[j]).pos == q && open0
            .remove(idx)[j].g_cost <= closed_g1[pos_key(p)] + csi) by {
        assert(closed0.contains(pos_key(p))) by {
            if !closed0.contains(pos_key(p)) {
                assert(pos_key(p) == pos_key(cur.pos));
                assert(p == cur.pos);
            }
        };
        assert(closed_g1[pos_key(p)] == closed_g0[pos_key(p)]) by {
            assert(pos_key(p) != pos_key(cur.pos)) by {
                if pos_key(p) == pos_key(cur.pos) {
                    assert(p == cur.pos);
                }
            };
        };
        if !closed1.contains(pos_key(q)) {
            assert(!closed0.contains(pos_key(q)));
            assert(q != cur.pos) by {
                if q == cur.pos {
                    assert(closed1.contains(pos_key(q)));
                }
            };
            lemma_bounded_witness_after_remove(open0, idx, q, closed_g0[pos_key(p)] + csi);
        }
    };
}

/// With all four candidates around the newly closed cell handled, the full
/// g-bounded frontier property holds again.
proof fn lemma_frontier_g_restore(
    closed1: Set<(i64, i64)>,
    closed_g1: Map<(i64, i64), int>,
    open1: Seq<Node>,
    current_pos: Position,
    csi: int,
    cfg: GridConfig,
)
    requires
        0 < csi <= 4096,
        current_pos.bounded(),
        closed1.contains(pos_key(current_pos)),
        forall|p: Position, q: Position|
            #![trigger closed1.contains(pos_key(p)), step_adjacent(p, q, csi)]
            closed1.contains(pos_key(p)) && p != current_pos && step_adjacent(p, q, csi)
                && valid_pos(q, cfg) ==> closed1.contains(pos_key(q)) || exists|j: int|
                0 <= j < open1.len() && (#[trigger] open1[j]).pos == q && open1[j].g_cost
                    <= closed_g1[pos_key(p)] + csi,
        forall|k2: int|
            0 <= k2 < 4 && valid_pos(#[trigger] nbr(current_pos, k2, csi), cfg) ==> closed1.contains(
                pos_key(nbr(current_pos, k2, csi)),
            ) || exists|j: int|
                0 <= j < open1.len() && (#[trigger] open1[j]).pos == nbr(current_pos, k2, csi)
                    && open1[j].g_cost <= closed_g1[pos_key(current_pos)] + csi,
    ensures
        frontier_g_ok(closed1, closed_g1, open1, csi, cfg),
{
    assert forall|p: Position, q: Position|
        closed1.contains(pos_key(p)) && #[trigger] step_adjacent(p, q, csi) && valid_pos(
            q,
            cfg,
        ) implies (closed1.contains(pos_key(q)) || exists|j: int|
        0 <= j < open1.len() && (#[trigger] open1[j]).pos == q && open1[j].g_cost <= closed_g1[
            pos_key(p)
        ] + csi) by {
        if p == current_pos {
            lemma_adjacent_is_nbr(current_pos, q, csi);
            let k2 = choose|k2: int| 0 <= k2 < 4 && q == #[trigger] nbr(current_pos, k2, csi);
            assert(valid_pos(nbr(current_pos, k2, csi), cfg));
        }
    };
}


/// Pushing the freshly generated candidate record keeps the g-bounded
/// frontier bookkeeping of the expansion in progress.
proof fn lemma_g_frontier_push(
    closed1: Set<(i64, i64)>,
    closed_g: Map<(i64, i64), int>,
    open0: Seq<Node>,
    child: Node,
    current_pos: Position,
    k: int,
    csi: int,
    cfg: GridConfig,
)
    requires
        forall|p: Position, q: Position|
            #![trigger closed1.contains(pos_key(p)), step_adjacent(p, q, csi)]
            closed1.contains(pos_key(p)) && p != current_pos && step_adjacent(p, q, csi)
                && valid_pos(q, cfg) ==> closed1.contains(pos_key(q)) || exists|j: int|
                0 <= j < open0.len() && (#[trigger] open0[j]).pos == q && open0[j].g_cost
                    <= closed_g[pos_key(p)] + csi,
        forall|k2: int|
            0 <= k2 < k && valid_pos(#[trigger] nbr(current_pos, k2, csi), cfg) ==> closed1.contains(
                pos_key(nbr(current_pos, k2, csi)),
            ) || exists|j: int|
                0 <= j < open0.len() && (#[trigger] open0[j]).pos == nbr(current_pos, k2, csi)
                    && open0[j].g_cost <= closed_g[pos_key(current_pos)] + csi,
        0 <= k < 4,
        child.pos == nbr(current_pos, k, csi),
        child.g_cost <= closed_g[pos_key(current_pos)] + csi,
    ensures
        forall|p: Position, q: Position|
            #![trigger closed1.contains(pos_key(p)), step_adjacent(p, q, csi)]
            closed1.contains(pos_key(p)) && p != current_pos && step_adjacent(p, q, csi)
                && valid_pos(q, cfg) ==> closed1.contains(pos_key(q)) || exists|j: int|
                0 <= j < open0.push(child).len() && (#[trigger] open0.push(child)[j]).pos == q
                    && open0.push(child)[j].g_cost <= closed_g[pos_key(p)] + csi,
        forall|k2: int|
            0 <= k2 < k + 1 && valid_pos(#[trigger] nbr(current_pos, k2, csi), cfg)
                ==> closed1.contains(pos_key(nbr(current_pos, k2, csi))) || exists|j: int|
                0 <= j < open0.push(child).len() && (#[trigger] open0.push(child)[j]).pos == nbr(
                    current_pos,
                    k2,
                    csi,
                ) && open0.push(child)[j].g_cost <= closed_g[pos_key(current_pos)] + csi,
{
    let open1 = open0.push(child);
    assert forall|p: Position, q: Position|
        closed1.contains(pos_key(p)) && p != current_pos && #[trigger] step_adjacent(p, q, csi)
            && valid_pos(q, cfg) implies (closed1.contains(pos_key(q)) || exists|j: int|
        0 <= j < open1.len() && (#[trigger] open1[j]).pos == q && open1[j].g_cost <= closed_g[
            pos_key(p)
        ] + csi) by {
        if !closed1.contains(pos_key(q)) {
            lemma_bounded_witness_after_push(open0, child, q, closed_g[pos_key(p)] + csi);
        }
    };
    assert forall|k2: int|
        0 <= k2 < k + 1 && valid_pos(#[trigger] nbr(current_pos, k2, csi), cfg) implies (closed1
        .contains(pos_key(nbr(current_pos, k2, csi))) || exists|j: int|
        0 <= j < open1.len() && (#[trigger] open1[j]).pos == nbr(current_pos, k2, csi)
            && open1[j].g_cost <= closed_g[pos_key(current_pos)] + csi) by {
        if k2 == k {
            assert(open1[open1.len() - 1] == child);
        } else if !closed1.contains(pos_key(nbr(current_pos, k2, csi))) {
            lemma_bounded_witness_after_push(
                open0,
                child,
                nbr(current_pos, k2, csi),
                closed_g[pos_key(current_pos)] + csi,
            );
        }
    };
}


/// A valid search result certifies reachability: read from start to goal,
/// it is itself a free walk.
pub proof fn lemma_path_implies_reachable(
    p: Seq<Position>,
    start: Position,
    goal: Position,
    obs: Set<(i64, i64)>,
    cfg: GridConfig,
)
    requires
        is_search_path(p, start, goal, obs, cfg),
    ensures
        reachable(start, goal, obs, cfg),
{
    let l = p.len() as int;
    let w = Seq::new(p.len(), |i: int| p[l - 1 - i]);
    assert(w[0] == start);
    assert(w[w.len() - 1] == goal);
    assert forall|i: int| 0 <= i < w.len() - 1 implies step_adjacent(
        #[trigger] w[i],
        w[i + 1],
        cfg.cell_size as int,
    ) by {
        let j = l - 2 - i;
        assert(w[i] == p[j + 1] && w[i + 1] == p[j]);
        assert(step_adjacent(p[j + 1], p[j], cfg.cell_size as int));
    };
    assert forall|i: int| 1 <= i < w.len() implies !obs.contains(pos_key(#[trigger] w[i])) by {
        assert(w[i] == p[l - 1 - i]);
        assert(0 <= l - 1 - i < l - 1);
    };
    assert(is_free_walk(w, start, goal, obs, cfg));
}

/// Identical inputs yield identical search outcomes: any two results that
/// meet the search contract for the same start, goal and obstacle set
/// agree on whether a path was found, and with no obstacles at all they
/// have the same length.
pub proof fn lemma_search_agreement(
    r1: Option<Seq<Position>>,
    r2: Option<Seq<Position>>,
    start: Position,
    goal: Position,
    obs: Set<(i64, i64)>,
    no_obstacles: bool,
    cfg: GridConfig,
)
    requires
        match r1 {
            Some(p) => is_search_path(p, start, goal, obs, cfg) && (no_obstacles ==> p.len()
                == spec_mhtn(start, goal) / (cfg.cell_size as int) + 1),
            None => !reachable(start, goal, obs, cfg),
        },
        match r2 {
            Some(p) => is_search_path(p, start, goal, obs, cfg) && (no_obstacles ==> p.len()
                == spec_mhtn(start, goal) / (cfg.cell_size as int) + 1),
            None => !reachable(start, goal, obs, cfg),
        },
    ensures
        r1 is Some <==> r2 is Some,
        r1 is Some && r2 is Some && no_obstacles ==> r1.unwrap().len() == r2.unwrap().len(),
{
    if let Some(p1) = r1 {
        lemma_path_implies_reachable(p1, start, goal, obs, cfg);
    }
    if let Some(p2) = r2 {
        lemma_path_implies_reachable(p2, start, goal, obs, cfg);
    }
}

} // verus!
