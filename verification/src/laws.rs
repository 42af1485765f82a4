//! The library's laws: moves undone in reverse order restore the sorting
//! state, and a finished animation's move becomes durable.
use vstd::prelude::*;
use crate::anim::{anim_paths, finished, Animation};
use crate::engine::{
    EngineModel, ResolveState, SortEngine, first_cat_match, has_pending_from,
    last_pending_index, lemma_last_pending_index_exhaustive, lemma_last_pending_index_valid,
    spec_move, spec_resolve_all, spec_resolve_one, spec_undo, MOVE_ANIM_DURATION_MS,
};

verus! {

/// The conditions under which one move is exactly reversible: a current
/// image that is not the last of several (reinsertion lands where removal
/// happened), a valid direction, a cached texture with no pending move
/// already keyed by it, and a destination key not already cached.
pub open spec fn spec_move_reversible(m: EngineModel, d: int) -> bool {
    &&& m.current is Some
    &&& 0 <= m.current->Some_0 < m.images.len()
    &&& (m.current->Some_0 < m.images.len() - 1 || m.images.len() == 1)
    &&& 0 <= d < m.cats.len()
    &&& m.cache.contains_key(m.images[m.current->Some_0])
    &&& !has_pending_from(m.pending, m.images[m.current->Some_0])
    &&& !m.cache.contains_key(
        crate::paths::join_name(m.cats[d], m.images[m.current->Some_0]),
    )
}

/// Undo reverses one move exactly: active list, current index, history,
/// pending moves and texture cache keys all return to their values before
/// the move.
pub proof fn lemma_move_then_undo(m: EngineModel, d: int, now: u64)
    requires
        spec_move_reversible(m, d),
    ensures
        spec_undo(spec_move(m, d, now)) == m,
{
    let c = m.current->Some_0;
    let from = m.images[c];
    let to = crate::paths::join_name(m.cats[d], from);
    let m2 = spec_move(m, d, now);
    assert(m2.moves.last() == (from, to, now));
    assert(m2.moves.drop_last() =~= m.moves);
    assert(last_pending_index(m2.pending, from) == Some(m.pending.len() as int));
    assert(m2.pending.remove(m.pending.len() as int) =~= m.pending);
    let u = spec_undo(m2);
    if m.images.len() == 1 {
        assert(m2.images.len() == 0);
        assert(m2.current is None);
        assert(u.images =~= m.images);
        assert(u.current == Some(0int));
        assert(m.current == Some(0int));
    } else {
        assert(c < m2.images.len());
        assert(u.images =~= m.images);
        assert(u.current == m.current);
    }
    assert(u =~~= m);
}

/// `spec_move`, folded over a run of directions.
pub open spec fn apply_moves(m: EngineModel, ds: Seq<int>, now: u64) -> EngineModel
    decreases ds.len(),
{
    if ds.len() == 0 {
        m
    } else {
        apply_moves(spec_move(m, ds[0], now), ds.drop_first(), now)
    }
}

/// `spec_undo`, applied `n` times.
pub open spec fn apply_undos(m: EngineModel, n: nat) -> EngineModel
    decreases n,
{
    if n == 0 {
        m
    } else {
        apply_undos(spec_undo(m), (n - 1) as nat)
    }
}

/// Every move of the run is exactly reversible in the state it acts on.
pub open spec fn moves_reversible(m: EngineModel, ds: Seq<int>, now: u64) -> bool
    decreases ds.len(),
{
    if ds.len() == 0 {
        true
    } else {
        spec_move_reversible(m, ds[0]) && moves_reversible(
            spec_move(m, ds[0], now),
            ds.drop_first(),
            now,
        )
    }
}

pub proof fn lemma_apply_undos_add(m: EngineModel, a: nat, b: nat)
    ensures
        apply_undos(m, a + b) == apply_undos(apply_undos(m, a), b),
    decreases a,
{
    if a > 0 {
        lemma_apply_undos_add(spec_undo(m), (a - 1) as nat, b);
    }
}

/// N moves followed by N undos restore the sorting state: the active
/// list, the current index, the move history, the pending moves and the
/// texture cache keys all return to their pre-move values, provided each
/// move was exactly reversible where it happened.
pub proof fn lemma_moves_then_undos(m: EngineModel, ds: Seq<int>, now: u64)
    requires
        moves_reversible(m, ds, now),
    ensures
        apply_undos(apply_moves(m, ds, now), ds.len() as nat) == m,
    decreases ds.len(),
{
    if ds.len() > 0 {
        let m1 = spec_move(m, ds[0], now);
        lemma_moves_then_undos(m1, ds.drop_first(), now);
        lemma_apply_undos_add(
            apply_moves(m1, ds.drop_first(), now),
            (ds.len() - 1) as nat,
            1nat,
        );
        lemma_move_then_undo(m, ds[0], now);
        assert(apply_moves(m, ds, now) == apply_moves(m1, ds.drop_first(), now));
        assert(apply_undos(apply_moves(m1, ds.drop_first(), now), (ds.len() - 1) as nat) == m1);
        assert(apply_undos(spec_undo(m1), 0nat) == spec_undo(m1));
        assert(apply_undos(m1, 1nat) == spec_undo(m1));
    }
}

/// When an animation finishes, resolving it makes the move durable: the
/// texture becomes reachable under the destination key (carrying the very
/// handle the source held), the source key is gone, and no pending move
/// references the source any more.
pub proof fn lemma_resolve_makes_durable(s: ResolveState, cats: Seq<Seq<char>>, path: Seq<char>)
    requires
        has_pending_from(s.pending, path),
        s.cache.contains_key(path),
        forall|i: int, j: int|
            0 <= i < j < s.pending.len() ==> (#[trigger] s.pending[i]).0 != (
            #[trigger] s.pending[j]).0,
    ensures
        ({
            let k = last_pending_index(s.pending, path)->Some_0;
            let to = s.pending[k].1;
            let s2 = spec_resolve_one(s, cats, path);
            &&& last_pending_index(s.pending, path) is Some
            &&& s.pending[k].0 == path
            &&& s2.cache.contains_key(to)
            &&& s2.cache[to] == s.cache[path]
            &&& (to != path ==> !s2.cache.contains_key(path))
            &&& !has_pending_from(s2.pending, path)
        }),
{
    if last_pending_index(s.pending, path) is None {
        lemma_last_pending_index_exhaustive(s.pending, path);
    }
    lemma_last_pending_index_valid(s.pending, path);
    let k = last_pending_index(s.pending, path)->Some_0;
    let s2 = spec_resolve_one(s, cats, path);
    if has_pending_from(s2.pending, path) {
        let t = choose|t: int|
            0 <= t < s2.pending.len() && (#[trigger] s2.pending[t]).0 == path;
        if t < k {
            assert(s.pending[t].0 == path);
        } else {
            assert(s.pending[t + 1].0 == path);
        }
    }
}

/// A verified walkthrough: a move becomes durable when its
/// animation's duration has elapsed. With one category, one cached
/// current image, and nothing in flight, moving it at `t0` and ticking at
/// any `t1` at least a duration later leaves the destination name in the
/// bucket, the texture reachable under the destination key alone, and no
/// pending move or animation behind. Everything here follows from the
/// public contracts; the body only chains them.
pub fn durable_move_walkthrough(e0: SortEngine, t0: u64, t1: u64)
    requires
        e0.wf(),
        e0.cats_v().len() == 1,
        e0.images_v().len() == 1,
        e0.current_v() == Some(0int),
        e0.cache_v().contains_key(e0.images_v()[0]),
        !e0.cache_v().contains_key(
            crate::paths::join_name(e0.cats_v()[0], e0.images_v()[0]),
        ),
        e0.pending_v().len() == 0,
        e0.anims_v().len() == 0,
        e0.bucket_files_v().len() == 1,
        e0.bucket_files_v()[0].len() == 0,
        t1 >= t0 + MOVE_ANIM_DURATION_MS,
{
    let mut e = e0;
    let ghost from = e0.images_v()[0];
    let ghost to = crate::paths::join_name(e0.cats_v()[0], from);
    let r = e.move_current(0, t0, 0, 0);
    proof {
        assert(r is Some);
        assert(!has_pending_from(e0.pending_v(), from));
        assert(e.pending_v() =~= seq![(from, to)]);
        assert(e.anims_v().len() == 1);
        assert(e.anims_v()[0].path@ == from);
        assert(e.anims_v()[0].start_time == t0);
        assert(e.anims_v()[0].duration == MOVE_ANIM_DURATION_MS);
        assert(e.cache_v() == e0.cache_v());
        assert(e.bucket_files_v() == e0.bucket_files_v());
    }
    let ghost e1 = e;
    let _frames = e.tick(t1);
    proof {
        let pred = |a: Animation| finished(a, t1);
        reveal(Seq::filter);
        assert(e1.anims_v().drop_last() =~= Seq::<Animation>::empty());
        assert(finished(e1.anims_v()[0], t1));
        let fin = e1.anims_v().filter(pred);
        assert(fin =~= seq![e1.anims_v()[0]]);
        let paths = crate::anim::anim_paths(fin);
        assert(paths =~= seq![from]);
        let rs1 = e1.resolve_state();
        assert(last_pending_index(rs1.pending, from) == Some(0int));
        let rs2 = spec_resolve_one(rs1, e1.cats_v(), from);
        assert(first_cat_match(e1.cats_v(), from, to) == Some(0int));
        assert(rs2.files[0] =~= seq![to]);
        assert(paths.drop_first() =~= Seq::<Seq<char>>::empty());
        assert(paths[0] == from);
        assert(spec_resolve_all(rs1, e1.cats_v(), paths) == spec_resolve_all(
            rs2,
            e1.cats_v(),
            paths.drop_first(),
        ));
        // The property: after the duration, the bucket shows the moved
        // file, the texture sits under the destination key alone, and no
        // pending move references the source.
        assert(e.bucket_files_v()[0] =~= seq![to]);
        assert(e.cache_v().contains_key(to));
        assert(from != to ==> !e.cache_v().contains_key(from));
        assert(!has_pending_from(e.pending_v(), from));
        assert(Seq::<Animation>::empty().filter(|a: Animation| !finished(a, t1))
            =~= Seq::<Animation>::empty());
        assert(e1.anims_v().filter(|a: Animation| !finished(a, t1))
            =~= Seq::<Animation>::empty());
        assert(e.anims_v().len() == 0);
    }
}

} // verus!
