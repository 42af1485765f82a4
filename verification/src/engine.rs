//! The sort engine: the ordered active list, the per-category buckets,
//! the move/undo history, and the pending moves that animations resolve.
//!
//! Active-list entries and bucket entries are file names; a move's
//! destination is `category/name`. Renames themselves are outside work:
//! a move or an undo hands back the rename to perform, and whoever drives
//! the engine performs it.
use vstd::prelude::*;
use crate::anim::{Animation, AnimationController, AnimFrame, finished, frame_matches};
use crate::loader::{LoaderPool, view_set, distinct_views, lemma_view_set_push};
use crate::paths::views;
use crate::texture::TextureCache;

verus! {

/// How long a move's animation runs, in milliseconds.
pub const MOVE_ANIM_DURATION_MS: u64 = 500;

/// The scale a moving image departs at, in thousandths.
pub const MOVE_ANIM_START_SCALE: u32 = 1200;

/// The scale a moving image arrives at, in thousandths.
pub const MOVE_ANIM_END_SCALE: u32 = 600;

/// A completed sort action: pushed on every move, popped on undo.
pub struct MoveRecord {
    pub from: String,
    pub to: String,
    pub timestamp: u64,
}

/// A move whose animation has not finished: its texture still sits under
/// the source key, and moves to the destination key on completion.
pub struct PendingMove {
    pub from: String,
    pub to: String,
}

/// The rename that a move or an undo asks its driver to perform.
pub struct MoveAction {
    pub from: String,
    pub to: String,
}

/// One category's destination: its label, the files shown in it, and its
/// display geometry.
pub struct Bucket {
    pub category: String,
    pub files: Vec<String>,
    pub center_x: i32,
    pub center_y: i32,
    pub stack_offset: i32,
    pub next_stack_position: i32,
}

/// The record views of a move history.
pub open spec fn move_views(s: Seq<MoveRecord>) -> Seq<(Seq<char>, Seq<char>, u64)> {
    s.map_values(|m: MoveRecord| (m.from@, m.to@, m.timestamp))
}

/// The pair views of a pending-move list.
pub open spec fn pending_views(s: Seq<PendingMove>) -> Seq<(Seq<char>, Seq<char>)> {
    s.map_values(|p: PendingMove| (p.from@, p.to@))
}

/// Whether some pending pair claims `from` as its source.
pub open spec fn has_pending_from(p: Seq<(Seq<char>, Seq<char>)>, from: Seq<char>) -> bool {
    exists|i: int| 0 <= i < p.len() && (#[trigger] p[i]).0 == from
}

/// The position of the latest pending pair whose source is `from`.
pub open spec fn last_pending_index(p: Seq<(Seq<char>, Seq<char>)>, from: Seq<char>) -> Option<
    int,
>
    decreases p.len(),
{
    if p.len() == 0 {
        None
    } else if p.last().0 == from {
        Some(p.len() - 1)
    } else {
        last_pending_index(p.drop_last(), from)
    }
}

/// The position of the latest occurrence of `name` in a bucket's files.
pub open spec fn last_name_index(s: Seq<Seq<char>>, name: Seq<char>) -> Option<int>
    decreases s.len(),
{
    if s.len() == 0 {
        None
    } else if s.last() == name {
        Some(s.len() - 1)
    } else {
        last_name_index(s.drop_last(), name)
    }
}

/// The sorting state that moves and undos transform, as mathematics: the
/// active list, the current index, the history, the pending moves, and
/// the texture cache's keys.
#[verifier::ext_equal]
pub struct EngineModel {
    pub images: Seq<Seq<char>>,
    pub current: Option<int>,
    pub cats: Seq<Seq<char>>,
    pub moves: Seq<(Seq<char>, Seq<char>, u64)>,
    pub pending: Seq<(Seq<char>, Seq<char>)>,
    pub cache: Map<Seq<char>, u64>,
}

/// What a move in direction `d` at time `now` does to the model: nothing
/// without a current image or for a direction beyond the categories;
/// otherwise the current image leaves the active list, the current index
/// stays (clamped), a record is pushed, and — when its texture is cached
/// and no pending move already claims it — a pending move is pushed. The
/// cache itself is untouched until the animation completes.
pub open spec fn spec_move(m: EngineModel, d: int, now: u64) -> EngineModel {
    if m.current is None || !(0 <= d < m.cats.len()) {
        m
    } else if !(0 <= m.current->Some_0 < m.images.len()) {
        m
    } else {
        let c = m.current->Some_0;
        let from = m.images[c];
        let to = crate::paths::join_name(m.cats[d], from);
        let images2 = m.images.remove(c);
        EngineModel {
            images: images2,
            current: if images2.len() == 0 {
                None
            } else if c < images2.len() {
                Some(c)
            } else {
                Some(images2.len() - 1)
            },
            cats: m.cats,
            moves: m.moves.push((from, to, now)),
            pending: if m.cache.contains_key(from) && !has_pending_from(m.pending, from) {
                m.pending.push((from, to))
            } else {
                m.pending
            },
            cache: m.cache,
        }
    }
}

/// What an undo does to the model: nothing on an empty history; otherwise
/// the last record is popped, its source re-enters the active list at the
/// current index (or is appended), the latest pending move it left is
/// dropped, and the texture key moves back from destination to source at
/// once.
pub open spec fn spec_undo(m: EngineModel) -> EngineModel {
    if m.moves.len() == 0 {
        m
    } else {
        let rec = m.moves.last();
        let from = rec.0;
        let to = rec.1;
        let imgcur = if m.current is Some && 0 <= m.current->Some_0 <= m.images.len() {
            (m.images.insert(m.current->Some_0, from), m.current)
        } else {
            (m.images.push(from), Some(m.images.len() as int))
        };
        EngineModel {
            images: imgcur.0,
            current: imgcur.1,
            cats: m.cats,
            moves: m.moves.drop_last(),
            pending: match last_pending_index(m.pending, from) {
                Some(i) => m.pending.remove(i),
                None => m.pending,
            },
            cache: if m.cache.contains_key(to) {
                m.cache.remove(to).insert(from, m.cache[to])
            } else {
                m.cache
            },
        }
    }
}

/// The tool's screens: choosing categories, waiting for the batch to
/// decode, sorting, and done.
#[derive(Clone, Copy, PartialEq, Eq, Structural, Debug)]
pub enum EngineState {
    Setup,
    Loading,
    Ready,
    Empty,
}

/// Where bucket `i` sits relative to the panel center: left, right,
/// above, below, a spacing apart.
pub open spec fn spec_bucket_pos(cx: int, cy: int, spacing: int, i: int) -> (int, int) {
    if i == 0 {
        (cx - spacing, cy)
    } else if i == 1 {
        (cx + spacing, cy)
    } else if i == 2 {
        (cx, cy - spacing)
    } else {
        (cx, cy + spacing)
    }
}

/// The sort engine.
pub struct SortEngine {
    images: Vec<String>,
    categories: Vec<String>,
    buckets: Vec<Bucket>,
    current: Option<usize>,
    moves: Vec<MoveRecord>,
    pending_moves: Vec<PendingMove>,
    cache: TextureCache,
    loader: LoaderPool,
    anims: AnimationController,
    setup_done: bool,
    is_loading: bool,
    total_to_load: usize,
    last_pos: Option<(i32, i32)>,
}

impl SortEngine {
    pub closed spec fn images_v(self) -> Seq<Seq<char>> {
        views(self.images@)
    }

    pub closed spec fn cats_v(self) -> Seq<Seq<char>> {
        views(self.categories@)
    }

    pub closed spec fn current_v(self) -> Option<int> {
        match self.current {
            Some(i) => Some(i as int),
            None => None,
        }
    }

    pub closed spec fn moves_v(self) -> Seq<(Seq<char>, Seq<char>, u64)> {
        move_views(self.moves@)
    }

    pub closed spec fn pending_v(self) -> Seq<(Seq<char>, Seq<char>)> {
        pending_views(self.pending_moves@)
    }

    pub closed spec fn cache_v(self) -> Map<Seq<char>, u64> {
        self.cache@
    }

    pub closed spec fn bucket_files_v(self) -> Seq<Seq<Seq<char>>> {
        self.buckets@.map_values(|b: Bucket| views(b.files@))
    }

    pub closed spec fn anims_v(self) -> Seq<Animation> {
        self.anims@
    }

    pub closed spec fn loader_pending(self) -> Set<Seq<char>> {
        self.loader.pending_set()
    }

    pub closed spec fn setup_done_v(self) -> bool {
        self.setup_done
    }

    pub closed spec fn is_loading_v(self) -> bool {
        self.is_loading
    }

    pub closed spec fn last_pos_v(self) -> Option<(i32, i32)> {
        self.last_pos
    }

    /// The display center of bucket `i`.
    pub closed spec fn bucket_center_v(self, i: int) -> (i32, i32) {
        (self.buckets@[i].center_x, self.buckets@[i].center_y)
    }

    pub closed spec fn total_v(self) -> int {
        self.total_to_load as int
    }

    /// The mathematical state that moves and undos act on.
    pub open spec fn model(self) -> EngineModel {
        EngineModel {
            images: self.images_v(),
            current: self.current_v(),
            cats: self.cats_v(),
            moves: self.moves_v(),
            pending: self.pending_v(),
            cache: self.cache_v(),
        }
    }

    /// The engine's invariant: caches and pools well formed, one bucket
    /// per category carrying its label, the current index in range, the
    /// animation queue well formed, pending moves unique per source, and
    /// stacking offsets within their cycle.
    pub closed spec fn wf(self) -> bool {
        &&& self.cache.wf()
        &&& self.loader.wf()
        &&& self.anims.wf()
        &&& self.buckets@.len() == self.categories@.len()
        &&& forall|i: int|
            0 <= i < self.buckets@.len() ==> (#[trigger] self.buckets@[i]).category@
                == self.categories@[i]@
        &&& forall|i: int|
            0 <= i < self.buckets@.len() ==> 0 <= (#[trigger] self.buckets@[i]).next_stack_position
                <= 15 && self.buckets@[i].stack_offset == 3
        &&& (self.current is Some ==> self.current->0 < self.images@.len())
        &&& self.categories@.len() <= 4
        &&& forall|i: int, j: int|
            0 <= i < j < self.pending_v().len() ==> (#[trigger] self.pending_v()[i]).0 != (
            #[trigger] self.pending_v()[j]).0
    }

    /// What the invariant tells a caller about the engine's shape: one
    /// bucket per category, and a current index always in range.
    pub proof fn lemma_wf_shape(self)
        requires
            self.wf(),
        ensures
            self.bucket_files_v().len() == self.cats_v().len(),
            self.current_v() matches Some(c) ==> 0 <= c < self.images_v().len(),
    {
    }

    pub fn new() -> (r: SortEngine)
        ensures
            r.wf(),
            r.model() == (EngineModel {
                images: Seq::empty(),
                current: None,
                cats: Seq::empty(),
                moves: Seq::empty(),
                pending: Seq::empty(),
                cache: Map::empty(),
            }),
            !r.setup_done_v(),
            !r.is_loading_v(),
            r.anims_v() == Seq::<Animation>::empty(),
            r.bucket_files_v() == Seq::<Seq<Seq<char>>>::empty(),
            r.loader_pending() == Set::<Seq<char>>::empty(),
    {
        let r = SortEngine {
            images: Vec::new(),
            categories: Vec::new(),
            buckets: Vec::new(),
            current: None,
            moves: Vec::new(),
            pending_moves: Vec::new(),
            cache: TextureCache::new(),
            loader: LoaderPool::new(),
            anims: AnimationController::new(),
            setup_done: false,
            is_loading: false,
            total_to_load: 0,
            last_pos: None,
        };
        proof {
            assert(r.model() =~= (EngineModel {
                images: Seq::empty(),
                current: None,
                cats: Seq::empty(),
                moves: Seq::empty(),
                pending: Seq::empty(),
                cache: Map::empty(),
            }));
            assert(r.bucket_files_v() =~= Seq::<Seq<Seq<char>>>::empty());
        }
        r
    }

    /// Confirms the chosen categories (1 to 4 labels), creating one empty
    /// bucket per category, in configuration order. The caller creates
    /// the matching directories.
    pub fn set_categories(&mut self, cats: Vec<String>)
        requires
            old(self).wf(),
            !old(self).setup_done_v(),
            1 <= cats@.len() <= 4,
        ensures
            final(self).wf(),
            final(self).setup_done_v(),
            final(self).cats_v() == views(cats@),
            final(self).bucket_files_v().len() == cats@.len(),
            forall|i: int|
                0 <= i < cats@.len() ==> (#[trigger] final(self).bucket_files_v()[i]) == Seq::<
                    Seq<char>,
                >::empty(),
            final(self).model() == (EngineModel { cats: views(cats@), ..old(self).model() }),
            final(self).anims_v() == old(self).anims_v(),
            final(self).loader_pending() == old(self).loader_pending(),
    {
        let mut cats = cats;
        self.categories = Vec::new();
        self.buckets = Vec::new();
        let mut k: usize = 0;
        let n = cats.len();
        proof {
            assert(views(cats@).subrange(0, 0) =~= Seq::<Seq<char>>::empty());
        }
        while k < n
            invariant
                old(self).wf(),
                n == cats@.len(),
                1 <= n <= 4,
                k <= n,
                self.categories@.len() == k,
                self.buckets@.len() == k,
                forall|i: int|
                    0 <= i < k ==> (#[trigger] self.categories@[i])@ == cats@[i]@,
                forall|i: int|
                    0 <= i < k ==> (#[trigger] self.buckets@[i]).category@ == cats@[i]@
                        && self.buckets@[i].files@.len() == 0
                        && self.buckets@[i].next_stack_position == 0
                        && self.buckets@[i].stack_offset == 3,
                self.images@ == old(self).images@,
                self.current == old(self).current,
                self.moves@ == old(self).moves@,
                self.pending_moves@ == old(self).pending_moves@,
                self.cache == old(self).cache,
                self.loader == old(self).loader,
                self.anims == old(self).anims,
                self.setup_done == old(self).setup_done,
                self.is_loading == old(self).is_loading,
                self.total_to_load == old(self).total_to_load,
            decreases n - k,
        {
            let label = cats[k].clone();
            let label2 = cats[k].clone();
            self.categories.push(label);
            self.buckets.push(
                Bucket {
                    category: label2,
                    files: Vec::new(),
                    center_x: 0,
                    center_y: 0,
                    stack_offset: 3,
                    next_stack_position: 0,
                },
            );
            k = k + 1;
        }
        self.setup_done = true;
        proof {
            assert(self.cats_v() =~= views(cats@));
            assert(self.model() =~= (EngineModel { cats: views(cats@), ..old(self).model() }));
            assert forall|i: int| 0 <= i < cats@.len() implies (#[trigger] self.bucket_files_v()[i])
                == Seq::<Seq<char>>::empty() by {
                assert(self.bucket_files_v()[i] == views(self.buckets@[i].files@));
                assert(views(self.buckets@[i].files@) =~= Seq::<Seq<char>>::empty());
            }
        }
    }

    /// Feeds one completed decode into the texture cache, clearing its
    /// pending marker; loading ends when as many textures are cached as
    /// the batch announced.
    pub fn complete_load(&mut self, path: &String, id: u64)
        requires
            old(self).wf(),
        ensures
            final(self).wf(),
            final(self).cache_v() == old(self).cache_v().insert(path@, id),
            final(self).loader_pending() == old(self).loader_pending().remove(path@),
            final(self).model() == (EngineModel {
                cache: old(self).cache_v().insert(path@, id),
                ..old(self).model()
            }),
            final(self).anims_v() == old(self).anims_v(),
            final(self).bucket_files_v() == old(self).bucket_files_v(),
            final(self).setup_done_v() == old(self).setup_done_v(),
            final(self).total_v() == old(self).total_v(),
            final(self).last_pos_v() == old(self).last_pos_v(),
            final(self).is_loading_v() == (final(self).cache_v().dom().len()
                < final(self).total_v()),
    {
        self.loader.complete(path);
        self.cache.insert(path.clone(), id);
        let loaded = self.cache.len();
        self.is_loading = loaded < self.total_to_load;
        proof {
            assert(self.model() =~= (EngineModel {
                cache: old(self).cache_v().insert(path@, id),
                ..old(self).model()
            }));
        }
    }


    /// Requests a decode for every active image in `[start, end)` that is
    /// neither cached nor already pending, in list order; returns exactly
    /// the paths whose work is newly scheduled.
    fn request_range(&mut self, start: usize, end: usize) -> (out: Vec<String>)
        requires
            old(self).wf(),
            start <= end <= old(self).images_v().len(),
        ensures
            final(self).wf(),
            final(self).model() == old(self).model(),
            final(self).bucket_files_v() == old(self).bucket_files_v(),
            final(self).anims_v() == old(self).anims_v(),
            final(self).setup_done_v() == old(self).setup_done_v(),
            final(self).is_loading_v() == old(self).is_loading_v(),
            final(self).total_v() == old(self).total_v(),
            final(self).last_pos_v() == old(self).last_pos_v(),
            final(self).loader_pending() == old(self).loader_pending().union(
                old(self).images_v().subrange(start as int, end as int).to_set().difference(
                    old(self).cache_v().dom(),
                ),
            ),
            view_set(out@) == old(self).images_v().subrange(start as int, end as int)
                .to_set().difference(old(self).cache_v().dom()).difference(
                old(self).loader_pending(),
            ),
            distinct_views(out@),
    {
        let ghost imgs = self.images_v();
        let ghost cachedom = self.cache_v().dom();
        let ghost pend0 = self.loader_pending();
        let mut out: Vec<String> = Vec::new();
        let mut i: usize = start;
        proof {
            assert(imgs.subrange(start as int, start as int).to_set() =~= Set::<Seq<char>>::empty());
            assert(self.loader_pending() =~= pend0.union(
                imgs.subrange(start as int, start as int).to_set().difference(cachedom),
            ));
            assert(view_set(out@) =~= imgs.subrange(start as int, start as int)
                .to_set().difference(cachedom).difference(pend0));
        }
        while i < end
            invariant
                start <= i <= end <= imgs.len(),
                imgs == views(self.images@),
                cachedom == self.cache@.dom(),
                pend0 == old(self).loader_pending(),
                self.images@ == old(self).images@,
                self.categories@ == old(self).categories@,
                self.buckets@ == old(self).buckets@,
                self.current == old(self).current,
                self.moves@ == old(self).moves@,
                self.pending_moves@ == old(self).pending_moves@,
                self.cache == old(self).cache,
                self.anims == old(self).anims,
                self.setup_done == old(self).setup_done,
                self.is_loading == old(self).is_loading,
                self.total_to_load == old(self).total_to_load,
                self.last_pos == old(self).last_pos,
                old(self).wf(),
                self.cache.wf(),
                self.loader.wf(),
                self.loader.pending_set() == pend0.union(
                    imgs.subrange(start as int, i as int).to_set().difference(cachedom),
                ),
                view_set(out@) == imgs.subrange(start as int, i as int)
                    .to_set().difference(cachedom).difference(pend0),
                forall|j: int| 0 <= j < out@.len() ==> self.loader.pending_set().contains(
                    (#[trigger] out@[j])@,
                ),
                distinct_views(out@),
            decreases end - i,
        {
            let ghost pend_i = self.loader.pending_set();
            let ghost w_i = imgs.subrange(start as int, i as int).to_set();
            let ghost w_n = imgs.subrange(start as int, i + 1).to_set();
            let p = self.images[i].clone();
            proof {
                assert(imgs.subrange(start as int, i + 1) =~= imgs.subrange(
                    start as int,
                    i as int,
                ).push(imgs[i as int]));
                lemma_to_set_push(imgs.subrange(start as int, i as int), imgs[i as int]);
                assert(p@ == imgs[i as int]);
            }
            let scheduled = self.loader.request(&self.cache, &p);
            if scheduled {
                let ghost out0 = out@;
                out.push(p);
                proof {
                    assert(forall|j: int|
                        0 <= j < out0.len() ==> (#[trigger] out@[j]) == out0[j]);
                    assert(out@.last()@ == imgs[i as int]);
                    assert(out@ == out0.push(out@.last()));
                    lemma_view_set_push(out0, out@.last());
                    assert(w_n =~= w_i.insert(imgs[i as int]));
                    assert(!pend0.contains(imgs[i as int]));
                    assert(!cachedom.contains(imgs[i as int]));
                    assert(self.loader.pending_set() =~= pend0.union(
                        w_n.difference(cachedom),
                    ));
                    assert(view_set(out@) =~= w_n.difference(cachedom).difference(pend0));
                    assert(distinct_views(out@)) by {
                        assert(forall|j: int|
                            0 <= j < out0.len() ==> pend_i.contains((#[trigger] out0[j])@));
                        assert(!pend_i.contains(imgs[i as int]));
                    }
                }
            } else {
                proof {
                    assert(w_n =~= w_i.insert(imgs[i as int]));
                    assert(pend_i == pend0.union(w_i.difference(cachedom)));
                    if self.cache@.contains_key(imgs[i as int]) {
                        assert(cachedom.contains(imgs[i as int]));
                    } else {
                        assert(pend_i.contains(imgs[i as int]));
                        assert(pend0.contains(imgs[i as int]) || w_i.contains(imgs[i as int]));
                    }
                    assert(self.loader.pending_set() =~= pend0.union(
                        w_n.difference(cachedom),
                    ));
                    assert(view_set(out@) =~= w_n.difference(cachedom).difference(pend0));
                }
            }
            i = i + 1;
        }
        proof {
            assert(self.model() =~= old(self).model());
        }
        out
    }

    /// Replaces the active list with the supported files of a directory
    /// listing and requests decodes for the whole batch; the selection is
    /// cleared (a rescan chooses the first image instead, see `rescan`).
    /// Returns the paths to decode.
    pub fn scan(&mut self, listing: &Vec<String>) -> (out: Vec<String>)
        requires
            old(self).wf(),
        ensures
            final(self).wf(),
            final(self).images_v() == views(listing@).filter(
                |n: Seq<char>| crate::paths::has_supported_ext(n),
            ),
            final(self).model() == (EngineModel {
                images: final(self).images_v(),
                current: None,
                ..old(self).model()
            }),
            final(self).total_v() == final(self).images_v().len(),
            final(self).is_loading_v() == (final(self).cache_v().dom().len()
                < final(self).images_v().len()),
            final(self).bucket_files_v() == old(self).bucket_files_v(),
            final(self).anims_v() == old(self).anims_v(),
            final(self).setup_done_v() == old(self).setup_done_v(),
            final(self).loader_pending() == old(self).loader_pending().union(
                final(self).images_v().to_set().difference(old(self).cache_v().dom()),
            ),
            view_set(out@) == final(self).images_v().to_set().difference(
                old(self).cache_v().dom(),
            ).difference(old(self).loader_pending()),
            distinct_views(out@),
    {
        let imgs = crate::paths::scan_filter(listing);
        self.images = imgs;
        self.current = None;
        self.total_to_load = self.images.len();
        let loaded = self.cache.len();
        self.is_loading = loaded < self.total_to_load;
        let n = self.images.len();
        let out = self.request_range(0, n);
        proof {
            assert(self.images_v().subrange(0, self.images_v().len() as int)
                =~= self.images_v());
            assert(self.model() =~= (EngineModel {
                images: self.images_v(),
                current: None,
                ..old(self).model()
            }));
        }
        out
    }

    /// Rescans: as `scan`, but the first image (if any) becomes current,
    /// as after a refresh.
    pub fn rescan(&mut self, listing: &Vec<String>) -> (out: Vec<String>)
        requires
            old(self).wf(),
        ensures
            final(self).wf(),
            final(self).images_v() == views(listing@).filter(
                |n: Seq<char>| crate::paths::has_supported_ext(n),
            ),
            final(self).model() == (EngineModel {
                images: final(self).images_v(),
                current: if final(self).images_v().len() == 0 {
                    None
                } else {
                    Some(0int)
                },
                ..old(self).model()
            }),
            final(self).total_v() == final(self).images_v().len(),
            final(self).is_loading_v() == (final(self).cache_v().dom().len()
                < final(self).images_v().len()),
            final(self).bucket_files_v() == old(self).bucket_files_v(),
            final(self).anims_v() == old(self).anims_v(),
            final(self).setup_done_v() == old(self).setup_done_v(),
            final(self).loader_pending() == old(self).loader_pending().union(
                final(self).images_v().to_set().difference(old(self).cache_v().dom()),
            ),
            view_set(out@) == final(self).images_v().to_set().difference(
                old(self).cache_v().dom(),
            ).difference(old(self).loader_pending()),
            distinct_views(out@),
    {
        let out = self.scan(listing);
        if self.images.len() > 0 {
            self.current = Some(0);
        }
        proof {
            assert(self.model() =~= (EngineModel {
                images: self.images_v(),
                current: if self.images_v().len() == 0 {
                    None
                } else {
                    Some(0int)
                },
                ..old(self).model()
            }));
        }
        out
    }

    /// The look-ahead window from the current image: itself and the two
    /// after it, clipped to the list's end.
    pub open spec fn preload_window(self) -> Seq<Seq<char>> {
        let c = self.current_v()->Some_0;
        let stop = if c + 3 <= self.images_v().len() {
            c + 3
        } else {
            self.images_v().len() as int
        };
        self.images_v().subrange(c, stop)
    }

    /// Requests decodes for the current image and the two after it, so
    /// the view ahead stays warm. Returns exactly the window paths that
    /// were neither cached nor already pending, each marked pending and
    /// handed out once; everything else is left alone.
    pub fn ensure_window_loaded(&mut self) -> (out: Vec<String>)
        requires
            old(self).wf(),
        ensures
            final(self).wf(),
            final(self).model() == old(self).model(),
            final(self).bucket_files_v() == old(self).bucket_files_v(),
            final(self).anims_v() == old(self).anims_v(),
            final(self).setup_done_v() == old(self).setup_done_v(),
            final(self).is_loading_v() == old(self).is_loading_v(),
            final(self).total_v() == old(self).total_v(),
            final(self).last_pos_v() == old(self).last_pos_v(),
            old(self).current_v() is None ==> *final(self) == *old(self) && out@.len() == 0,
            old(self).current_v() is Some ==> final(self).loader_pending()
                == old(self).loader_pending().union(
                old(self).preload_window().to_set().difference(old(self).cache_v().dom()),
            ),
            old(self).current_v() is Some ==> view_set(out@) == old(
                self,
            ).preload_window().to_set().difference(old(self).cache_v().dom()).difference(
                old(self).loader_pending(),
            ),
            distinct_views(out@),
    {
        match self.current {
            None => Vec::new(),
            Some(c) => {
                let len = self.images.len();
                let stop = if len - c > 3 {
                    c + 3
                } else {
                    len
                };
                let out = self.request_range(c, stop);
                proof {
                    assert(old(self).preload_window() == old(self).images_v().subrange(
                        c as int,
                        stop as int,
                    ));
                }
                out
            },
        }
    }

    /// Replaces one bucket's shown files with a fresh listing of its
    /// category directory.
    pub fn set_bucket_files(&mut self, i: usize, files: Vec<String>)
        requires
            old(self).wf(),
            i < old(self).cats_v().len(),
        ensures
            final(self).wf(),
            final(self).model() == old(self).model(),
            final(self).anims_v() == old(self).anims_v(),
            final(self).loader_pending() == old(self).loader_pending(),
            final(self).bucket_files_v() == old(self).bucket_files_v().update(
                i as int,
                views(files@),
            ),
    {
        let b = &self.buckets[i];
        let nb = Bucket {
            category: b.category.clone(),
            files,
            center_x: b.center_x,
            center_y: b.center_y,
            stack_offset: b.stack_offset,
            next_stack_position: b.next_stack_position,
        };
        self.buckets.set(i, nb);
        proof {
            assert(final(self).model() =~= old(self).model());
            assert(final(self).bucket_files_v() =~= old(self).bucket_files_v().update(
                i as int,
                views(nb.files@),
            ));
        }
    }


    /// Looks for the latest pending move whose source is `from`.
    fn find_pending_last(&self, from: &String) -> (r: Option<usize>)
        ensures
            match r {
                Some(k) => last_pending_index(self.pending_v(), from@) == Some(k as int),
                None => last_pending_index(self.pending_v(), from@) is None,
            },
    {
        let mut j = self.pending_moves.len();
        while j > 0
            invariant
                j <= self.pending_moves@.len(),
                forall|t: int|
                    j <= t < self.pending_v().len() ==> (#[trigger] self.pending_v()[t]).0
                        != from@,
            decreases j,
        {
            j = j - 1;
            if self.pending_moves[j].from == *from {
                proof {
                    assert(self.pending_v()[j as int].0 == from@);
                    lemma_last_pending_at(self.pending_v(), from@, j as int);
                }
                return Some(j);
            }
            proof {
                assert(self.pending_v()[j as int].0 != from@);
            }
        }
        proof {
            lemma_last_pending_none(self.pending_v(), from@);
        }
        None
    }

    /// Where the display shows the current image, remembered so the next
    /// move's animation departs from it.
    pub fn set_current_pos(&mut self, x: i32, y: i32)
        requires
            old(self).wf(),
        ensures
            final(self).wf(),
            final(self).model() == old(self).model(),
            final(self).anims_v() == old(self).anims_v(),
            final(self).bucket_files_v() == old(self).bucket_files_v(),
            final(self).loader_pending() == old(self).loader_pending(),
            final(self).last_pos_v() == Some((x, y)),
    {
        self.last_pos = Some((x, y));
        proof {
            assert(self.model() =~= old(self).model());
        }
    }

    /// Sorts the current image into the category in `direction`: records
    /// the move, removes the image from the active list (the next image
    /// becomes current at once), starts an animation when the texture is
    /// already cached, and hands back the rename to perform. Without a
    /// current image, or for a direction beyond the configured categories,
    /// nothing happens at all.
    pub fn move_current(&mut self, direction: usize, now: u64, center_x: i32, center_y: i32)
        -> (r: Option<MoveAction>)
        requires
            old(self).wf(),
        ensures
            final(self).wf(),
            final(self).model() == spec_move(old(self).model(), direction as int, now),
            final(self).bucket_files_v() == old(self).bucket_files_v(),
            final(self).loader_pending() == old(self).loader_pending(),
            final(self).setup_done_v() == old(self).setup_done_v(),
            final(self).is_loading_v() == old(self).is_loading_v(),
            final(self).total_v() == old(self).total_v(),
            (r is Some) == (old(self).current_v() is Some && (direction as int)
                < old(self).cats_v().len()),
            r matches Some(a) ==> {
                let c = old(self).current_v()->Some_0;
                let from = old(self).images_v()[c];
                &&& a.from@ == from
                &&& a.to@ == crate::paths::join_name(old(self).cats_v()[direction as int], from)
            },
            r is None ==> *final(self) == *old(self),
            ({
                let m = old(self).model();
                r is Some && m.cache.contains_key(old(self).images_v()[m.current->Some_0])
                    && !has_pending_from(m.pending, old(self).images_v()[m.current->Some_0])
            }) ==> {
                let c = old(self).current_v()->Some_0;
                let from = old(self).images_v()[c];
                let av = final(self).anims_v();
                &&& av.len() == old(self).anims_v().len() + 1
                &&& av.drop_last() == old(self).anims_v()
                &&& av.last().path@ == from
                &&& av.last().start_time == now
                &&& av.last().duration == MOVE_ANIM_DURATION_MS
                &&& av.last().start_scale == MOVE_ANIM_START_SCALE
                &&& av.last().end_scale == MOVE_ANIM_END_SCALE
                &&& (av.last().start_x, av.last().start_y) == match old(self).last_pos_v() {
                    Some(p) => p,
                    None => (center_x, center_y),
                }
                &&& av.last().end_x == old(self).bucket_center_v(direction as int).0
                &&& av.last().end_y == old(self).bucket_center_v(direction as int).1
            },
            !({
                let m = old(self).model();
                r is Some && m.cache.contains_key(old(self).images_v()[m.current->Some_0])
                    && !has_pending_from(m.pending, old(self).images_v()[m.current->Some_0])
            }) ==> final(self).anims_v() == old(self).anims_v(),
    {
        let c = match self.current {
            None => {
                proof {
                    assert(self.model() =~= spec_move(old(self).model(), direction as int, now));
                }
                return None;
            },
            Some(c) => c,
        };
        if direction >= self.categories.len() {
            proof {
                assert(self.model() =~= spec_move(old(self).model(), direction as int, now));
            }
            return None;
        }
        let ghost m0 = self.model();
        let from = self.images[c].clone();
        let to = crate::paths::join_path(&self.categories[direction], &from);
        proof {
            assert(from@ == m0.images[c as int]);
            assert(to@ == crate::paths::join_name(m0.cats[direction as int], from@));
        }

        // Animation and pending move, only with a cached texture and no
        // pending move already keyed by this source.
        let cached = self.cache.contains(&from);
        let already = match self.find_pending_last(&from) {
            Some(_) => true,
            None => false,
        };
        proof {
            if already {
                let k = last_pending_index(self.pending_v(), from@)->Some_0;
                lemma_last_pending_index_valid(self.pending_v(), from@);
                assert(has_pending_from(self.pending_v(), from@));
            } else {
                lemma_last_pending_index_exhaustive(self.pending_v(), from@);
                assert(!has_pending_from(self.pending_v(), from@));
            }
        }
        if cached && !already {
            let sx: i32;
            let sy: i32;
            match self.last_pos {
                Some(p) => {
                    sx = p.0;
                    sy = p.1;
                },
                None => {
                    sx = center_x;
                    sy = center_y;
                },
            }
            let ex = self.buckets[direction].center_x;
            let ey = self.buckets[direction].center_y;
            let a = Animation {
                path: from.clone(),
                start_x: sx,
                start_y: sy,
                end_x: ex,
                end_y: ey,
                start_scale: MOVE_ANIM_START_SCALE,
                end_scale: MOVE_ANIM_END_SCALE,
                start_time: now,
                duration: MOVE_ANIM_DURATION_MS,
            };
            self.anims.push(a);
            let ghost pend0 = self.pending_moves@;
            self.pending_moves.push(PendingMove { from: from.clone(), to: to.clone() });
            proof {
                assert(self.pending_v() =~= pending_views(pend0).push((from@, to@)));
                assert(self.anims_v().drop_last() =~= old(self).anims_v());
            }
        }

        // The bucket's stacking position advances, cycling past 15.
        let mut b = self.buckets.remove(direction);
        b.next_stack_position = b.next_stack_position + b.stack_offset;
        if b.next_stack_position > 15 {
            b.next_stack_position = 0;
        }
        self.buckets.insert(direction, b);
        proof {
            assert(self.buckets@.len() == old(self).buckets@.len());
            assert(forall|i: int|
                0 <= i < self.buckets@.len() && i != direction as int
                    ==> #[trigger] self.buckets@[i] == old(self).buckets@[i]);
            assert(self.bucket_files_v() =~= old(self).bucket_files_v());
        }

        // History record, active list, and the clamped current index.
        self.moves.push(MoveRecord { from: from.clone(), to: to.clone(), timestamp: now });
        proof {
            assert(self.moves_v() =~= move_views(old(self).moves@).push((from@, to@, now)));
        }
        self.images.remove(c);
        proof {
            assert(views(self.images@) =~= views(old(self).images@).remove(c as int));
        }
        let newlen = self.images.len();
        if newlen == 0 {
            self.current = None;
        } else if c < newlen {
            self.current = Some(c);
        } else {
            self.current = Some(newlen - 1);
        }
        proof {
            assert(self.model() =~= spec_move(old(self).model(), direction as int, now));
        }
        Some(MoveAction { from, to })
    }

    /// Reverses the last recorded move, if any: the record is popped, the
    /// image re-enters the active list at the current position (or at the
    /// end), its texture key returns from destination to source at once,
    /// and the pending move it left (or, once durable, its bucket entry)
    /// is withdrawn. The reverse rename to perform is handed back; on an
    /// empty history nothing happens.
    pub fn undo(&mut self) -> (r: Option<MoveAction>)
        requires
            old(self).wf(),
        ensures
            final(self).wf(),
            final(self).model() == spec_undo(old(self).model()),
            final(self).loader_pending() == old(self).loader_pending(),
            final(self).anims_v() == old(self).anims_v(),
            final(self).setup_done_v() == old(self).setup_done_v(),
            final(self).is_loading_v() == old(self).is_loading_v(),
            final(self).total_v() == old(self).total_v(),
            (r is Some) == (old(self).moves_v().len() > 0),
            r is None ==> *final(self) == *old(self),
            r matches Some(a) ==> a.from@ == old(self).moves_v().last().1 && a.to@ == old(
                self,
            ).moves_v().last().0,
            final(self).bucket_files_v() == (
                if old(self).moves_v().len() == 0 {
                    old(self).bucket_files_v()
                } else if last_pending_index(
                    old(self).pending_v(),
                    old(self).moves_v().last().0,
                ) is Some {
                    old(self).bucket_files_v()
                } else {
                    spec_bucket_unfile(old(self).bucket_files_v(), old(self).moves_v().last().1)
                }
            ),
    {
        if self.moves.len() == 0 {
            proof {
                assert(self.model() =~= spec_undo(old(self).model()));
            }
            return None;
        }
        let ghost m0 = self.model();
        let rec = match self.moves.pop() {
            Some(rec) => rec,
            None => {
                proof {
                    assert(false);
                }
                return None;
            },
        };
        proof {
            assert(rec.from@ == m0.moves.last().0);
            assert(rec.to@ == m0.moves.last().1);
            assert(self.moves_v() =~= m0.moves.drop_last());
        }

        // The image returns to the active list at the current position.
        match self.current {
            Some(cur) => {
                self.images.insert(cur, rec.from.clone());
                proof {
                    assert(views(self.images@) =~= m0.images.insert(
                        old(self).current_v()->Some_0,
                        rec.from@,
                    ));
                }
            },
            None => {
                self.images.push(rec.from.clone());
                self.current = Some(self.images.len() - 1);
                proof {
                    assert(views(self.images@) =~= m0.images.push(rec.from@));
                }
            },
        }

        // The latest pending move this record left is withdrawn; if none
        // is left, the move had become durable, and its bucket entry goes.
        let ghost pend0 = pending_views(self.pending_moves@);
        match self.find_pending_last(&rec.from) {
            Some(k) => {
                proof {
                    lemma_last_pending_index_valid(pend0, rec.from@);
                }
                self.pending_moves.remove(k);
                proof {
                    assert(self.pending_v() =~= pend0.remove(k as int));
                    assert(last_pending_index(pend0, rec.from@) == Some(k as int));
                }
            },
            None => {
                self.unfile_bucket_entry(&rec.to);
            },
        }

        // The texture key returns at once: undo is visually instantaneous.
        self.cache.rekey(&rec.to, rec.from.clone());

        proof {
            assert(self.model() =~= spec_undo(m0));
        }
        Some(MoveAction { from: rec.to, to: rec.from })
    }

    /// Removes the latest occurrence of `name` from the first bucket that
    /// shows it, if any does.
    fn unfile_bucket_entry(&mut self, name: &String)
        requires
            old(self).wf(),
        ensures
            final(self).wf(),
            final(self).model() == old(self).model(),
            final(self).anims_v() == old(self).anims_v(),
            final(self).loader_pending() == old(self).loader_pending(),
            final(self).setup_done_v() == old(self).setup_done_v(),
            final(self).is_loading_v() == old(self).is_loading_v(),
            final(self).total_v() == old(self).total_v(),
            final(self).last_pos_v() == old(self).last_pos_v(),
            final(self).bucket_files_v() == spec_bucket_unfile(
                old(self).bucket_files_v(),
                name@,
            ),
    {
        let ghost files0 = self.bucket_files_v();
        let n = self.buckets.len();
        let mut i: usize = 0;
        while i < n
            invariant
                old(self).wf(),
                *self == *old(self),
                n == self.buckets@.len(),
                i <= n,
                files0 == self.bucket_files_v(),
                forall|j: int| 0 <= j < i ==> !(#[trigger] files0[j]).contains(name@),
            decreases n - i,
        {
            // Search this bucket from the end for the latest occurrence.
            let mut k = self.buckets[i].files.len();
            while k > 0
                invariant
                    old(self).wf(),
                    *self == *old(self),
                    n == self.buckets@.len(),
                    i < n,
                    files0 == self.bucket_files_v(),
                    k <= self.buckets@[i as int].files@.len(),
                    forall|t: int|
                        k <= t < files0[i as int].len() ==> files0[i as int][t] != name@,
                    forall|j: int| 0 <= j < i ==> !(#[trigger] files0[j]).contains(name@),
                decreases k,
            {
                k = k - 1;
                if self.buckets[i].files[k] == *name {
                    proof {
                        assert(files0[i as int][k as int] == name@);
                        lemma_last_name_at(files0[i as int], name@, k as int);
                        lemma_first_bucket_at(files0, name@, i as int);
                    }
                    let mut b = self.buckets.remove(i);
                    b.files.remove(k);
                    self.buckets.insert(i, b);
                    proof {
                        assert(self.model() =~= old(self).model());
                        assert(forall|j: int|
                            0 <= j < self.buckets@.len() && j != i as int
                                ==> #[trigger] self.buckets@[j] == old(self).buckets@[j]);
                        assert(views(self.buckets@[i as int].files@) =~= files0[i as int].remove(
                            k as int,
                        ));
                        assert(self.bucket_files_v() =~= spec_bucket_unfile(files0, name@));
                    }
                    return ;
                }
                proof {
                    assert(files0[i as int][k as int] != name@);
                }
            }
            i = i + 1;
        }
        proof {
            lemma_first_bucket_none(files0, name@);
            assert(self.model() =~= old(self).model());
        }
    }


    /// The resolve-state projection of the engine.
    pub open spec fn resolve_state(self) -> ResolveState {
        ResolveState { pending: self.pending_v(), cache: self.cache_v(), files: self.bucket_files_v() }
    }

    /// Consumes the pending move that a finished animation for `path`
    /// left, making the move durable: the texture key passes from source
    /// to destination and the destination joins its bucket. A move
    /// already undone has no pending pair left, and nothing happens.
    pub fn resolve_pending(&mut self, path: &String)
        requires
            old(self).wf(),
        ensures
            final(self).wf(),
            final(self).resolve_state() == spec_resolve_one(
                old(self).resolve_state(),
                old(self).cats_v(),
                path@,
            ),
            final(self).images_v() == old(self).images_v(),
            final(self).current_v() == old(self).current_v(),
            final(self).cats_v() == old(self).cats_v(),
            final(self).moves_v() == old(self).moves_v(),
            final(self).anims_v() == old(self).anims_v(),
            final(self).loader_pending() == old(self).loader_pending(),
            final(self).setup_done_v() == old(self).setup_done_v(),
            final(self).is_loading_v() == old(self).is_loading_v(),
            final(self).total_v() == old(self).total_v(),
            !has_pending_from(final(self).pending_v(), path@),
            forall|x: Seq<char>|
                !has_pending_from(old(self).pending_v(), x) ==> !has_pending_from(
                    final(self).pending_v(),
                    x,
                ),
    {
        let ghost s0 = self.resolve_state();
        let k = match self.find_pending_last(path) {
            None => {
                proof {
                    lemma_last_pending_index_exhaustive(self.pending_v(), path@);
                    assert(self.resolve_state() =~~= spec_resolve_one(s0, self.cats_v(), path@));
                }
                return ;
            },
            Some(k) => k,
        };
        proof {
            lemma_last_pending_index_valid(s0.pending, path@);
        }
        let pm = self.pending_moves.remove(k);
        proof {
            assert(pm.from@ == s0.pending[k as int].0);
            assert(pm.to@ == s0.pending[k as int].1);
            assert(self.pending_v() =~= s0.pending.remove(k as int));
            assert(!has_pending_from(self.pending_v(), path@)) by {
                assert(forall|i: int, j: int|
                    0 <= i < j < s0.pending.len() ==> (#[trigger] s0.pending[i]).0 != (
                    #[trigger] s0.pending[j]).0);
                if has_pending_from(self.pending_v(), path@) {
                    let t = choose|t: int|
                        0 <= t < self.pending_v().len() && (#[trigger] self.pending_v()[t]).0
                            == path@;
                    if t < k {
                        assert(s0.pending[t].0 == path@);
                    } else {
                        assert(s0.pending[t + 1].0 == path@);
                    }
                }
            }
            assert forall|x: Seq<char>|
                !has_pending_from(s0.pending, x) implies !has_pending_from(
                self.pending_v(),
                x,
            ) by {
                if has_pending_from(self.pending_v(), x) {
                    let t = choose|t: int|
                        0 <= t < self.pending_v().len() && (#[trigger] self.pending_v()[t]).0 == x;
                    if t < k {
                        assert(s0.pending[t].0 == x);
                    } else {
                        assert(s0.pending[t + 1].0 == x);
                    }
                }
            }
        }

        // The texture becomes reachable under the destination path.
        self.cache.rekey(&pm.from, pm.to.clone());
        proof {
            assert(self.wf()) by {
                assert(forall|i2: int, j2: int|
                    0 <= i2 < j2 < self.pending_v().len() ==> (#[trigger] self.pending_v()[i2]).0
                        != (#[trigger] self.pending_v()[j2]).0) by {
                    assert(forall|t: int|
                        0 <= t < self.pending_v().len() ==> (#[trigger] self.pending_v()[t]) == (
                        if t < k { s0.pending[t] } else { s0.pending[t + 1] }));
                }
            }
        }

        // The destination joins its category's bucket, if one matches.
        let ncats = self.categories.len();
        let mut i: usize = 0;
        let ghost files0 = s0.files;
        while i < ncats
            invariant
                old(self).wf(),
                ncats == self.categories@.len(),
                i <= ncats,
                self.buckets@.len() == self.categories@.len(),
                self.buckets@ == old(self).buckets@,
                files0 == self.bucket_files_v(),
                files0 == old(self).bucket_files_v(),
                self.categories@ == old(self).categories@,
                self.images@ == old(self).images@,
                self.current == old(self).current,
                self.moves@ == old(self).moves@,
                self.anims == old(self).anims,
                self.loader == old(self).loader,
                self.setup_done == old(self).setup_done,
                self.is_loading == old(self).is_loading,
                self.total_to_load == old(self).total_to_load,
                self.cache.wf(),
                self.loader.wf(),
                0 <= k < s0.pending.len(),
                s0 == old(self).resolve_state(),
                last_pending_index(s0.pending, path@) == Some(k as int),
                pm.from@ == s0.pending[k as int].0,
                pm.to@ == s0.pending[k as int].1,
                self.pending_v() == s0.pending.remove(k as int),
                self.cache_v() == (if s0.cache.contains_key(pm.from@) {
                    s0.cache.remove(pm.from@).insert(pm.to@, s0.cache[pm.from@])
                } else {
                    s0.cache
                }),
                !has_pending_from(self.pending_v(), path@),
                forall|x: Seq<char>|
                    !has_pending_from(s0.pending, x) ==> !has_pending_from(
                        self.pending_v(),
                        x,
                    ),
                forall|i2: int, j2: int|
                    0 <= i2 < j2 < self.pending_v().len() ==> (#[trigger] self.pending_v()[i2]).0
                        != (#[trigger] self.pending_v()[j2]).0,
                forall|j: int|
                    0 <= j < i ==> crate::paths::join_name(
                        (#[trigger] self.cats_v()[j]),
                        pm.from@,
                    ) != pm.to@,
            decreases ncats - i,
        {
            let cand = crate::paths::join_path(&self.categories[i], &pm.from);
            if cand == pm.to {
                proof {
                    lemma_first_cat_match_at(self.cats_v(), pm.from@, pm.to@, i as int);
                }
                let mut b = self.buckets.remove(i);
                b.files.push(pm.to);
                self.buckets.insert(i, b);
                proof {
                    assert(forall|j: int|
                        0 <= j < self.buckets@.len() && j != i as int
                            ==> #[trigger] self.buckets@[j] == old(self).buckets@[j]);
                    assert(views(self.buckets@[i as int].files@) =~= files0[i as int].push(
                        pm.to@,
                    ));
                    assert(self.bucket_files_v() =~= files0.update(
                        i as int,
                        files0[i as int].push(pm.to@),
                    ));
                    assert(self.resolve_state() =~~= spec_resolve_one(s0, self.cats_v(), path@));
                }
                return ;
            }
            i = i + 1;
        }
        proof {
            lemma_first_cat_match_none(self.cats_v(), pm.from@, pm.to@);
            assert(self.resolve_state() =~~= spec_resolve_one(s0, self.cats_v(), path@));
        }
    }

    /// Advances all animations to `now`, returning one drawable sample
    /// per animation. Animations whose duration has elapsed are retired,
    /// and each retired animation's pending move is made durable, so no
    /// pending move references a finished animation afterwards.
    pub fn tick(&mut self, now: u64) -> (frames: Vec<AnimFrame>)
        requires
            old(self).wf(),
        ensures
            final(self).wf(),
            frames@.len() == old(self).anims_v().len(),
            forall|i: int|
                0 <= i < old(self).anims_v().len() ==> frame_matches(
                    frames@[i],
                    old(self).anims_v()[i],
                    now,
                ),
            final(self).anims_v() == old(self).anims_v().filter(
                |a: Animation| !finished(a, now),
            ),
            final(self).resolve_state() == spec_resolve_all(
                old(self).resolve_state(),
                old(self).cats_v(),
                crate::anim::anim_paths(
                    old(self).anims_v().filter(|a: Animation| finished(a, now)),
                ),
            ),
            final(self).images_v() == old(self).images_v(),
            final(self).current_v() == old(self).current_v(),
            final(self).cats_v() == old(self).cats_v(),
            final(self).moves_v() == old(self).moves_v(),
            final(self).loader_pending() == old(self).loader_pending(),
            forall|i: int|
                0 <= i < old(self).anims_v().len() && finished(
                    #[trigger] old(self).anims_v()[i],
                    now,
                ) ==> !has_pending_from(final(self).pending_v(), old(self).anims_v()[i].path@),
    {
        let (frames, done) = self.anims.tick(now);
        let ghost s0 = self.resolve_state();
        let ghost cats0 = self.cats_v();
        let ghost dv = views(done@);
        let n = done.len();
        let mut i: usize = 0;
        proof {
            assert(dv.subrange(0, n as int) =~= dv);
            assert(self.cache.wf());
            assert(self.loader.wf());
            assert(self.anims.wf());
            assert(self.buckets@.len() == self.categories@.len());
            assert(forall|i2: int|
                0 <= i2 < self.buckets@.len() ==> (#[trigger] self.buckets@[i2]).category@
                    == self.categories@[i2]@);
            assert(self.current is Some ==> self.current->0 < self.images@.len());
            assert(self.pending_v() == old(self).pending_v());
            assert(forall|i2: int, j2: int|
                0 <= i2 < j2 < self.pending_v().len() ==> (#[trigger] self.pending_v()[i2]).0 != (
                #[trigger] self.pending_v()[j2]).0);
            assert(self.wf());
        }
        while i < n
            invariant
                old(self).wf(),
                self.wf(),
                n == done@.len(),
                i <= n,
                dv == views(done@),
                self.cats_v() == cats0,
                self.images_v() == old(self).images_v(),
                self.current_v() == old(self).current_v(),
                self.moves_v() == old(self).moves_v(),
                self.anims_v() == old(self).anims_v().filter(|a: Animation| !finished(a, now)),
                self.loader_pending() == old(self).loader_pending(),
                self.setup_done_v() == old(self).setup_done_v(),
                self.is_loading_v() == old(self).is_loading_v(),
                self.total_v() == old(self).total_v(),
                spec_resolve_all(s0, cats0, dv) == spec_resolve_all(
                    self.resolve_state(),
                    cats0,
                    dv.subrange(i as int, n as int),
                ),
                forall|t: int| 0 <= t < i ==> !has_pending_from(
                    self.pending_v(),
                    #[trigger] dv[t],
                ),
            decreases n - i,
        {
            proof {
                assert(dv.subrange(i as int, n as int)[0] == dv[i as int]);
                assert(dv.subrange(i as int, n as int).drop_first() =~= dv.subrange(
                    i + 1,
                    n as int,
                ));
                assert(done@[i as int]@ == dv[i as int]);
            }
            self.resolve_pending(&done[i]);
            i = i + 1;
        }
        proof {
            assert(dv.subrange(n as int, n as int).len() == 0);
            assert(spec_resolve_all(self.resolve_state(), cats0, dv.subrange(n as int, n as int))
                == self.resolve_state());
            assert(dv =~= crate::anim::anim_paths(
                old(self).anims_v().filter(|a: Animation| finished(a, now)),
            ));
            assert forall|j: int|
                0 <= j < old(self).anims_v().len() && finished(
                    #[trigger] old(self).anims_v()[j],
                    now,
                ) implies !has_pending_from(self.pending_v(), old(self).anims_v()[j].path@) by {
                let fin = old(self).anims_v().filter(|a: Animation| finished(a, now));
                old(self).anims_v().lemma_filter_contains(|a: Animation| finished(a, now), j);
                let t = choose|t: int| 0 <= t < fin.len() && fin[t] == old(self).anims_v()[j];
                assert(dv[t] == old(self).anims_v()[j].path@);
            }
        }
        frames
    }


    /// Which screen the tool is on: the setup form, the loading batch,
    /// interactive sorting, or nothing left to sort.
    pub fn state(&self) -> (r: EngineState)
        ensures
            r == (if !self.setup_done_v() {
                EngineState::Setup
            } else if self.is_loading_v() {
                EngineState::Loading
            } else if self.images_v().len() > 0 {
                EngineState::Ready
            } else {
                EngineState::Empty
            }),
    {
        if !self.setup_done {
            EngineState::Setup
        } else if self.is_loading {
            EngineState::Loading
        } else if self.images.len() > 0 {
            EngineState::Ready
        } else {
            EngineState::Empty
        }
    }

    pub fn image_count(&self) -> (r: usize)
        ensures
            r == self.images_v().len(),
    {
        self.images.len()
    }

    pub fn image_at(&self, i: usize) -> (r: String)
        requires
            i < self.images_v().len(),
        ensures
            r@ == self.images_v()[i as int],
    {
        self.images[i].clone()
    }

    pub fn current_index(&self) -> (r: Option<usize>)
        requires
            self.wf(),
        ensures
            match r {
                Some(i) => self.current_v() == Some(i as int) && (i as int) < self.images_v().len(),
                None => self.current_v() is None,
            },
    {
        self.current
    }

    /// The current image's name, where there is one and its index is in
    /// range.
    pub fn current_image(&self) -> (r: Option<String>)
        requires
            self.wf(),
        ensures
            match r {
                Some(p) => self.current_v() matches Some(c) && p@ == self.images_v()[c],
                None => self.current_v() is None,
            },
    {
        match self.current {
            Some(c) => Some(self.images[c].clone()),
            None => None,
        }
    }

    pub fn category_count(&self) -> (r: usize)
        ensures
            r == self.cats_v().len(),
    {
        self.categories.len()
    }

    pub fn category_at(&self, i: usize) -> (r: String)
        requires
            i < self.cats_v().len(),
        ensures
            r@ == self.cats_v()[i as int],
    {
        self.categories[i].clone()
    }

    pub fn moves_count(&self) -> (r: usize)
        ensures
            r == self.moves_v().len(),
    {
        self.moves.len()
    }

    pub fn move_at(&self, i: usize) -> (r: (String, String, u64))
        requires
            i < self.moves_v().len(),
        ensures
            (r.0@, r.1@, r.2) == self.moves_v()[i as int],
    {
        let m = &self.moves[i];
        (m.from.clone(), m.to.clone(), m.timestamp)
    }

    pub fn pending_count(&self) -> (r: usize)
        ensures
            r == self.pending_v().len(),
    {
        self.pending_moves.len()
    }

    pub fn pending_at(&self, i: usize) -> (r: (String, String))
        requires
            i < self.pending_v().len(),
        ensures
            (r.0@, r.1@) == self.pending_v()[i as int],
    {
        let p = &self.pending_moves[i];
        (p.from.clone(), p.to.clone())
    }

    /// The cached texture handle for a path, if its decode has arrived.
    pub fn texture_of(&self, path: &String) -> (r: Option<u64>)
        requires
            self.wf(),
        ensures
            match r {
                Some(v) => self.cache_v().contains_key(path@) && self.cache_v()[path@] == v,
                None => !self.cache_v().contains_key(path@),
            },
    {
        self.cache.get(path)
    }

    pub fn animation_count(&self) -> (r: usize)
        ensures
            r == self.anims_v().len(),
    {
        self.anims.count()
    }

    pub fn bucket_file_count(&self, i: usize) -> (r: usize)
        requires
            i < self.cats_v().len(),
            self.wf(),
        ensures
            r == self.bucket_files_v()[i as int].len(),
    {
        self.buckets[i].files.len()
    }

    pub fn bucket_file_at(&self, i: usize, j: usize) -> (r: String)
        requires
            self.wf(),
            i < self.cats_v().len(),
            j < self.bucket_files_v()[i as int].len(),
        ensures
            r@ == self.bucket_files_v()[i as int][j as int],
    {
        self.buckets[i].files[j].clone()
    }

    /// The stacked thumbnails a bucket shows: its first five files, each
    /// with its diagonal stacking offset.
    pub fn bucket_visible(&self, i: usize) -> (r: Vec<(String, i32)>)
        requires
            self.wf(),
            i < self.cats_v().len(),
        ensures
            r@.len() == (if self.bucket_files_v()[i as int].len() < 5 {
                self.bucket_files_v()[i as int].len() as int
            } else {
                5
            }),
            forall|j: int|
                0 <= j < r@.len() ==> (#[trigger] r@[j]).0@ == self.bucket_files_v()[i as int][j]
                    && r@[j].1 == 3 * j,
    {
        let count = self.buckets[i].files.len();
        let limit = if count < 5 {
            count
        } else {
            5
        };
        let mut r: Vec<(String, i32)> = Vec::new();
        let mut j: usize = 0;
        while j < limit
            invariant
                self.wf(),
                i < self.buckets@.len(),
                limit <= self.buckets@[i as int].files@.len(),
                limit <= 5,
                j <= limit,
                r@.len() == j,
                forall|t: int|
                    0 <= t < j ==> (#[trigger] r@[t]).0@ == views(
                        self.buckets@[i as int].files@,
                    )[t] && r@[t].1 == 3 * t,
            decreases limit - j,
        {
            let off = (j as i32) * 3;
            r.push((self.buckets[i].files[j].clone(), off));
            j = j + 1;
        }
        r
    }

    pub fn is_loading(&self) -> (r: bool)
        ensures
            r == self.is_loading_v(),
    {
        self.is_loading
    }

    pub fn is_setup_done(&self) -> (r: bool)
        ensures
            r == self.setup_done_v(),
    {
        self.setup_done
    }

    /// Places the four bucket rectangles around the panel center: left,
    /// right, above and below it, a spacing apart, in category order.
    pub fn set_layout(&mut self, center_x: i32, center_y: i32, spacing: i32)
        requires
            old(self).wf(),
            -1000000 <= center_x <= 1000000,
            -1000000 <= center_y <= 1000000,
            0 <= spacing <= 1000000,
        ensures
            final(self).wf(),
            final(self).model() == old(self).model(),
            final(self).anims_v() == old(self).anims_v(),
            final(self).loader_pending() == old(self).loader_pending(),
            final(self).bucket_files_v() == old(self).bucket_files_v(),
            final(self).setup_done_v() == old(self).setup_done_v(),
            final(self).is_loading_v() == old(self).is_loading_v(),
            final(self).total_v() == old(self).total_v(),
            final(self).last_pos_v() == old(self).last_pos_v(),
            forall|i: int|
                0 <= i < final(self).cats_v().len() ==> ((#[trigger] final(self).bucket_center_v(
                    i,
                )).0 as int, final(self).bucket_center_v(i).1 as int) == spec_bucket_pos(
                    center_x as int,
                    center_y as int,
                    spacing as int,
                    i,
                ),
    {
        let n = self.buckets.len();
        let mut i: usize = 0;
        while i < n
            invariant
                old(self).wf(),
                -1000000 <= center_x <= 1000000,
                -1000000 <= center_y <= 1000000,
                0 <= spacing <= 1000000,
                n == self.buckets@.len(),
                n == old(self).buckets@.len(),
                i <= n,
                n <= 4,
                self.images@ == old(self).images@,
                self.categories@ == old(self).categories@,
                self.current == old(self).current,
                self.moves@ == old(self).moves@,
                self.pending_moves@ == old(self).pending_moves@,
                self.cache == old(self).cache,
                self.loader == old(self).loader,
                self.anims == old(self).anims,
                self.setup_done == old(self).setup_done,
                self.is_loading == old(self).is_loading,
                self.total_to_load == old(self).total_to_load,
                self.last_pos == old(self).last_pos,
                forall|t: int|
                    i <= t < n ==> (#[trigger] self.buckets@[t]) == old(self).buckets@[t],
                forall|t: int|
                    0 <= t < i ==> (#[trigger] self.buckets@[t]).category
                        == old(self).buckets@[t].category && self.buckets@[t].files
                        == old(self).buckets@[t].files && self.buckets@[t].stack_offset
                        == old(self).buckets@[t].stack_offset && self.buckets@[t].next_stack_position
                        == old(self).buckets@[t].next_stack_position,
                forall|t: int|
                    0 <= t < i ==> ((#[trigger] self.buckets@[t]).center_x as int,
                    self.buckets@[t].center_y as int) == spec_bucket_pos(
                        center_x as int,
                        center_y as int,
                        spacing as int,
                        t,
                    ),
            decreases n - i,
        {
            let dx: i32;
            let dy: i32;
            if i == 0 {
                dx = -spacing;
                dy = 0;
            } else if i == 1 {
                dx = spacing;
                dy = 0;
            } else if i == 2 {
                dx = 0;
                dy = -spacing;
            } else {
                dx = 0;
                dy = spacing;
            }
            let mut b = self.buckets.remove(i);
            b.center_x = center_x + dx;
            b.center_y = center_y + dy;
            self.buckets.insert(i, b);
            i = i + 1;
        }
        proof {
            assert(self.model() =~= old(self).model());
            assert(self.bucket_files_v() =~= old(self).bucket_files_v());
        }
    }

    /// How far loading has come: textures cached so far, and the size of
    /// the batch being loaded. A display divides them for its fraction.
    pub fn progress(&self) -> (r: (usize, usize))
        requires
            self.wf(),
        ensures
            r.0 == self.cache_v().dom().len(),
            r.1 == self.total_v(),
    {
        (self.cache.len(), self.total_to_load)
    }
}

/// Pushing an element inserts its value into the sequence-as-set.
pub proof fn lemma_to_set_push<A>(s: Seq<A>, x: A)
    ensures
        s.push(x).to_set() == s.to_set().insert(x),
{
    assert forall|k: A| s.push(x).to_set().contains(k) implies s.to_set().insert(x).contains(k) by {
        let i = choose|i: int| 0 <= i < s.push(x).len() && s.push(x)[i] == k;
        if i < s.len() {
            assert(s[i] == k);
        }
    }
    assert forall|k: A| s.to_set().insert(x).contains(k) implies s.push(x).to_set().contains(k) by {
        if k == x {
            assert(s.push(x)[s.len() as int] == k);
        } else {
            let i = choose|i: int| 0 <= i < s.len() && s[i] == k;
            assert(s.push(x)[i] == k);
        }
    }
    assert(s.push(x).to_set() =~= s.to_set().insert(x));
}

pub proof fn lemma_last_pending_index_valid(p: Seq<(Seq<char>, Seq<char>)>, from: Seq<char>)
    requires
        last_pending_index(p, from) is Some,
    ensures
        0 <= last_pending_index(p, from)->Some_0 < p.len(),
        p[last_pending_index(p, from)->Some_0].0 == from,
    decreases p.len(),
{
    if p.len() > 0 && p.last().0 != from {
        lemma_last_pending_index_valid(p.drop_last(), from);
    }
}

pub proof fn lemma_last_pending_index_exhaustive(p: Seq<(Seq<char>, Seq<char>)>, from: Seq<char>)
    requires
        last_pending_index(p, from) is None,
    ensures
        !has_pending_from(p, from),
    decreases p.len(),
{
    if p.len() > 0 {
        lemma_last_pending_index_exhaustive(p.drop_last(), from);
        assert(forall|j: int|
            0 <= j < p.len() - 1 ==> (#[trigger] p[j]) == p.drop_last()[j]);
    }
}

pub proof fn lemma_last_pending_at(p: Seq<(Seq<char>, Seq<char>)>, from: Seq<char>, k: int)
    requires
        0 <= k < p.len(),
        p[k].0 == from,
        forall|j: int| k < j < p.len() ==> (#[trigger] p[j]).0 != from,
    ensures
        last_pending_index(p, from) == Some(k),
    decreases p.len(),
{
    if k < p.len() - 1 {
        assert(p.drop_last()[k] == p[k]);
        lemma_last_pending_at(p.drop_last(), from, k);
    }
}

pub proof fn lemma_last_pending_none(p: Seq<(Seq<char>, Seq<char>)>, from: Seq<char>)
    requires
        forall|j: int| 0 <= j < p.len() ==> (#[trigger] p[j]).0 != from,
    ensures
        last_pending_index(p, from) is None,
    decreases p.len(),
{
    if p.len() > 0 {
        lemma_last_pending_none(p.drop_last(), from);
    }
}

pub proof fn lemma_last_name_at(s: Seq<Seq<char>>, name: Seq<char>, k: int)
    requires
        0 <= k < s.len(),
        s[k] == name,
        forall|j: int| k < j < s.len() ==> s[j] != name,
    ensures
        last_name_index(s, name) == Some(k),
    decreases s.len(),
{
    if k < s.len() - 1 {
        lemma_last_name_at(s.drop_last(), name, k);
    }
}

pub proof fn lemma_last_name_none(s: Seq<Seq<char>>, name: Seq<char>)
    requires
        forall|j: int| 0 <= j < s.len() ==> s[j] != name,
    ensures
        last_name_index(s, name) is None,
    decreases s.len(),
{
    if s.len() > 0 {
        lemma_last_name_none(s.drop_last(), name);
    }
}

/// The first bucket, in category order, whose files hold `name`.
pub open spec fn first_bucket_with(files: Seq<Seq<Seq<char>>>, name: Seq<char>) -> Option<int>
    decreases files.len(),
{
    if files.len() == 0 {
        None
    } else if files[0].contains(name) {
        Some(0)
    } else {
        match first_bucket_with(files.drop_first(), name) {
            Some(i) => Some(i + 1),
            None => None,
        }
    }
}

pub proof fn lemma_first_bucket_at(files: Seq<Seq<Seq<char>>>, name: Seq<char>, k: int)
    requires
        0 <= k < files.len(),
        files[k].contains(name),
        forall|j: int| 0 <= j < k ==> !(#[trigger] files[j]).contains(name),
    ensures
        first_bucket_with(files, name) == Some(k),
    decreases files.len(),
{
    if k > 0 {
        assert(forall|j: int|
            0 <= j < k - 1 ==> files.drop_first()[j] == (#[trigger] files[j + 1]));
        lemma_first_bucket_at(files.drop_first(), name, k - 1);
    }
}

pub proof fn lemma_first_bucket_none(files: Seq<Seq<Seq<char>>>, name: Seq<char>)
    requires
        forall|j: int| 0 <= j < files.len() ==> !(#[trigger] files[j]).contains(name),
    ensures
        first_bucket_with(files, name) is None,
    decreases files.len(),
{
    if files.len() > 0 {
        assert(forall|j: int|
            0 <= j < files.len() - 1 ==> files.drop_first()[j] == (#[trigger] files[j + 1]));
        lemma_first_bucket_none(files.drop_first(), name);
    }
}

/// What an undo does to the buckets when the move it reverses had already
/// become durable: the destination name leaves the first bucket showing it
/// (its latest occurrence); otherwise nothing changes.
pub open spec fn spec_bucket_unfile(files: Seq<Seq<Seq<char>>>, name: Seq<char>) -> Seq<
    Seq<Seq<char>>,
> {
    match first_bucket_with(files, name) {
        None => files,
        Some(i) => match last_name_index(files[i], name) {
            None => files,
            Some(j) => files.update(i, files[i].remove(j)),
        },
    }
}

/// The first category, in configuration order, whose destination for
/// `from` is `to`.
pub open spec fn first_cat_match(cats: Seq<Seq<char>>, from: Seq<char>, to: Seq<char>) -> Option<
    int,
>
    decreases cats.len(),
{
    if cats.len() == 0 {
        None
    } else if crate::paths::join_name(cats[0], from) == to {
        Some(0)
    } else {
        match first_cat_match(cats.drop_first(), from, to) {
            Some(i) => Some(i + 1),
            None => None,
        }
    }
}

pub proof fn lemma_first_cat_match_at(cats: Seq<Seq<char>>, from: Seq<char>, to: Seq<char>, k: int)
    requires
        0 <= k < cats.len(),
        crate::paths::join_name(cats[k], from) == to,
        forall|j: int| 0 <= j < k ==> crate::paths::join_name(#[trigger] cats[j], from) != to,
    ensures
        first_cat_match(cats, from, to) == Some(k),
    decreases cats.len(),
{
    if k > 0 {
        assert(forall|j: int|
            0 <= j < k - 1 ==> cats.drop_first()[j] == (#[trigger] cats[j + 1]));
        lemma_first_cat_match_at(cats.drop_first(), from, to, k - 1);
    }
}

pub proof fn lemma_first_cat_match_none(cats: Seq<Seq<char>>, from: Seq<char>, to: Seq<char>)
    requires
        forall|j: int| 0 <= j < cats.len() ==> crate::paths::join_name(#[trigger] cats[j], from)
            != to,
    ensures
        first_cat_match(cats, from, to) is None,
    decreases cats.len(),
{
    if cats.len() > 0 {
        assert(forall|j: int|
            0 <= j < cats.len() - 1 ==> cats.drop_first()[j] == (#[trigger] cats[j + 1]));
        lemma_first_cat_match_none(cats.drop_first(), from, to);
    }
}

/// The parts of the engine that resolving a completed animation touches.
#[verifier::ext_equal]
pub struct ResolveState {
    pub pending: Seq<(Seq<char>, Seq<char>)>,
    pub cache: Map<Seq<char>, u64>,
    pub files: Seq<Seq<Seq<char>>>,
}

/// Consuming the pending move a finished animation left: its latest
/// pending pair goes, the texture key moves from source to destination,
/// and the destination name joins its category's bucket. Without a
/// pending pair (an undo got there first) nothing happens.
pub open spec fn spec_resolve_one(
    s: ResolveState,
    cats: Seq<Seq<char>>,
    path: Seq<char>,
) -> ResolveState {
    match last_pending_index(s.pending, path) {
        None => s,
        Some(k) => {
            let from = s.pending[k].0;
            let to = s.pending[k].1;
            ResolveState {
                pending: s.pending.remove(k),
                cache: if s.cache.contains_key(from) {
                    s.cache.remove(from).insert(to, s.cache[from])
                } else {
                    s.cache
                },
                files: match first_cat_match(cats, from, to) {
                    None => s.files,
                    Some(i) => s.files.update(i, s.files[i].push(to)),
                },
            }
        },
    }
}

/// `spec_resolve_one`, folded over a run of finished paths in order.
pub open spec fn spec_resolve_all(
    s: ResolveState,
    cats: Seq<Seq<char>>,
    paths: Seq<Seq<char>>,
) -> ResolveState
    decreases paths.len(),
{
    if paths.len() == 0 {
        s
    } else {
        spec_resolve_all(spec_resolve_one(s, cats, paths[0]), cats, paths.drop_first())
    }
}

} // verus!
