use vstd::prelude::*;
use std::collections::HashSet;
use crate::grid::GridPosition;

verus! {

broadcast use vstd::std_specs::hash::group_hash_axioms;

/// Why a cell is highlighted.
#[derive(Clone, Copy, PartialEq, Eq, Structural, Debug, Hash)]
pub enum HighlightKind {
    Hover,
    MovementRange,
    SelectedUnitTile,
}

/// A marker saying that cell `pos` is highlighted for reason `kind`.
#[derive(Clone, Copy, PartialEq, Eq, Structural, Debug, Hash)]
pub struct GridHighlight {
    pub pos: GridPosition,
    pub kind: HighlightKind,
}

/// Some marker of kind `k` stands on cell `p`.
pub open spec fn marked(hs: Seq<GridHighlight>, p: GridPosition, k: HighlightKind) -> bool {
    hs.contains(GridHighlight { pos: p, kind: k })
}

/// The cells that a pass for kind `k` must newly mark to reach `desired`.
pub open spec fn spawn_set(
    hs: Seq<GridHighlight>,
    k: HighlightKind,
    desired: Set<GridPosition>,
) -> Set<GridPosition> {
    Set::new(|p: GridPosition| desired.contains(p) && !marked(hs, p, k))
}

/// The cells whose marker of kind `k` a pass must remove to reach `desired`.
pub open spec fn despawn_set(
    hs: Seq<GridHighlight>,
    k: HighlightKind,
    desired: Set<GridPosition>,
) -> Set<GridPosition> {
    Set::new(|p: GridPosition| marked(hs, p, k) && !desired.contains(p))
}

/// `new` is `old` with the markers of kind `k` standing exactly on `desired`,
/// and the markers of every other kind untouched.
pub open spec fn is_reconciled(
    old: Seq<GridHighlight>,
    new: Seq<GridHighlight>,
    k: HighlightKind,
    desired: Set<GridPosition>,
) -> bool {
    forall|p: GridPosition, j: HighlightKind|
        #![trigger marked(new, p, j)]
        marked(new, p, j) <==> if j == k {
            desired.contains(p)
        } else {
            marked(old, p, j)
        }
}

/// A second reconciliation pass towards the same desired cells, right after a
/// first one, has nothing to spawn and nothing to despawn.
pub proof fn lemma_reconcile_idempotent(
    old: Seq<GridHighlight>,
    new: Seq<GridHighlight>,
    k: HighlightKind,
    desired: Set<GridPosition>,
)
    requires
        is_reconciled(old, new, k, desired),
    ensures
        spawn_set(new, k, desired) == Set::<GridPosition>::empty(),
        despawn_set(new, k, desired) == Set::<GridPosition>::empty(),
{
    assert(spawn_set(new, k, desired) =~= Set::<GridPosition>::empty()) by {
        assert forall|p: GridPosition| !spawn_set(new, k, desired).contains(p) by {
            assert(marked(new, p, k) <==> desired.contains(p));
        }
    }
    assert(despawn_set(new, k, desired) =~= Set::<GridPosition>::empty()) by {
        assert forall|p: GridPosition| !despawn_set(new, k, desired).contains(p) by {
            assert(marked(new, p, k) <==> desired.contains(p));
        }
    }
}

/// A cell packed into one integer, column in the high half, row in the low half.
pub open spec fn cell_key(p: GridPosition) -> u64 {
    ((p.x as u64) << 32u64) | (p.y as u64)
}

/// Distinct cells have distinct keys.
pub proof fn lemma_cell_key_injective(p: GridPosition, q: GridPosition)
    ensures
        cell_key(p) == cell_key(q) ==> p == q,
{
    let (a, b, c, d) = (p.x, p.y, q.x, q.y);
    assert((((a as u64) << 32u64) | (b as u64)) == (((c as u64) << 32u64) | (d as u64)) ==> a == c
        && b == d) by (bit_vector);
}

fn key_of(p: GridPosition) -> (r: u64)
    ensures
        r == cell_key(p),
{
    ((p.x as u64) << 32u64) | (p.y as u64)
}

/// The keys of the cells of `v`, for membership tests that do not depend on order.
fn key_set_of(v: &Vec<GridPosition>) -> (r: HashSet<u64>)
    ensures
        forall|p: GridPosition| #[trigger] r@.contains(cell_key(p)) <==> v@.contains(p),
{
    let mut r: HashSet<u64> = HashSet::new();
    let mut i: usize = 0;
    while i < v.len()
        invariant
            i <= v.len(),
            forall|p: GridPosition|
                #[trigger] r@.contains(cell_key(p)) <==> v@.subrange(0, i as int).contains(p),
        decreases v.len() - i,
    {
        let p = v[i];
        let ghost r0 = r@;
        r.insert(key_of(p));
        proof {
            assert forall|q: GridPosition|
                #[trigger] r@.contains(cell_key(q)) <==> v@.subrange(0, i as int + 1).contains(q) by {
                lemma_prefix_contains(v@, i as int, q);
                lemma_cell_key_injective(p, q);
            }
        }
        i = i + 1;
    }
    proof {
        assert(v@.subrange(0, v@.len() as int) =~= v@);
    }
    r
}

/// What one reconciliation pass changed: the cells it newly marked and the
/// cells whose marker it removed.
pub struct ReconcileOutcome {
    pub spawned: Vec<GridPosition>,
    pub despawned: Vec<GridPosition>,
}

proof fn lemma_prefix_contains<A>(s: Seq<A>, i: int, x: A)
    requires
        0 <= i < s.len(),
    ensures
        s.subrange(0, i + 1).contains(x) <==> (s.subrange(0, i).contains(x) || x == s[i]),
{
    assert(s.subrange(0, i + 1) =~= s.subrange(0, i).push(s[i]));
    lemma_push_contains(s.subrange(0, i), s[i]);
}

pub(crate) proof fn lemma_push_contains<A>(s: Seq<A>, x: A)
    ensures
        forall|y: A| #[trigger] s.push(x).contains(y) <==> (s.contains(y) || y == x),
        s.no_duplicates() && !s.contains(x) ==> s.push(x).no_duplicates(),
{
    let t = s.push(x);
    assert forall|y: A| #[trigger] t.contains(y) <==> (s.contains(y) || y == x) by {
        if t.contains(y) {
            let n = choose|n: int| 0 <= n < t.len() && t[n] == y;
            if n < s.len() {
                assert(s[n] == y);
            }
        }
        if s.contains(y) {
            let n = choose|n: int| 0 <= n < s.len() && s[n] == y;
            assert(t[n] == y);
        }
        assert(t[s.len() as int] == x);
    }
    if s.no_duplicates() && !s.contains(x) {
        assert forall|a: int, b: int| 0 <= a < t.len() && 0 <= b < t.len() && a != b implies t[a]
            != t[b] by {
            if a < s.len() && b < s.len() {
                assert(s[a] != s[b]);
            } else if a < s.len() {
                assert(s[a] == t[a]);
            } else {
                assert(s[b] == t[b]);
            }
        }
    }
}

/// Brings the markers of kind `k` in `hs` in line with the cells of `desired`:
/// removes those whose cell left it, then adds one for each desired cell that
/// has none. Markers of other kinds, and markers that stay, are left as they are.
pub fn reconcile(hs: &mut Vec<GridHighlight>, k: HighlightKind, desired: &Vec<GridPosition>) -> (r:
    ReconcileOutcome)
    requires
        old(hs)@.no_duplicates(),
    ensures
        final(hs)@.no_duplicates(),
        is_reconciled(old(hs)@, final(hs)@, k, desired@.to_set()),
        forall|p: GridPosition|
            r.spawned@.contains(p) <==> spawn_set(old(hs)@, k, desired@.to_set()).contains(p),
        forall|p: GridPosition|
            r.despawned@.contains(p) <==> despawn_set(old(hs)@, k, desired@.to_set()).contains(p),
        r.spawned@.no_duplicates(),
        r.despawned@.no_duplicates(),
{
    let ghost h0 = hs@;
    let wanted = key_set_of(desired);
    let mut present: HashSet<u64> = HashSet::new();
    let mut kept: Vec<GridHighlight> = Vec::new();
    let mut despawned: Vec<GridPosition> = Vec::new();
    let mut i: usize = 0;
    while i < hs.len()
        invariant
            i <= hs.len(),
            hs@ == h0,
            h0.no_duplicates(),
            kept@.no_duplicates(),
            despawned@.no_duplicates(),
            forall|p: GridPosition| #[trigger] wanted@.contains(cell_key(p)) <==> desired@.contains(p),
            forall|p: GridPosition|
                #[trigger] present@.contains(cell_key(p)) <==> h0.subrange(0, i as int).contains(
                    GridHighlight { pos: p, kind: k },
                ),
            forall|h: GridHighlight|
                #[trigger] kept@.contains(h) <==> (h0.subrange(0, i as int).contains(h) && (h.kind
                    != k || desired@.contains(h.pos))),
            forall|p: GridPosition|
                #[trigger] despawned@.contains(p) <==> (h0.subrange(0, i as int).contains(
                    GridHighlight { pos: p, kind: k },
                ) && !desired@.contains(p)),
        decreases hs.len() - i,
    {
        let h = hs[i];
        let ghost kept0 = kept@;
        let ghost desp0 = despawned@;
        let ghost before = h0.subrange(0, i as int);
        let ghost after = h0.subrange(0, i as int + 1);
        proof {
            assert(h == h0[i as int]);
            assert forall|x: GridHighlight| #[trigger]
                after.contains(x) <==> (before.contains(x) || x == h) by {
                lemma_prefix_contains(h0, i as int, x);
            }
            assert(!before.contains(h)) by {
                if before.contains(h) {
                    let n = choose|n: int| 0 <= n < before.len() && before[n] == h;
                    assert(h0[n] == h0[i as int]);
                }
            }
        }
        let ghost present0 = present@;
        if h.kind == k {
            present.insert(key_of(h.pos));
        }
        proof {
            assert forall|q: GridPosition|
                #[trigger] present@.contains(cell_key(q)) <==> after.contains(
                    GridHighlight { pos: q, kind: k },
                ) by {
                lemma_cell_key_injective(h.pos, q);
                if h.kind == k {
                    assert(present@ == present0.insert(cell_key(h.pos)));
                }
            }
        }
        if h.kind != k || wanted.contains(&key_of(h.pos)) {
            kept.push(h);
            proof {
                lemma_push_contains(kept0, h);
            }
        } else {
            despawned.push(h.pos);
            proof {
                lemma_push_contains(desp0, h.pos);
                assert(h == GridHighlight { pos: h.pos, kind: k });
            }
        }
        i = i + 1;
        proof {
            assert(h0.subrange(0, i as int) == after);
        }
    }
    proof {
        assert(h0.subrange(0, h0.len() as int) =~= h0);
    }
    let mut spawned: Vec<GridPosition> = Vec::new();
    let mut spawned_keys: HashSet<u64> = HashSet::new();
    let mut j: usize = 0;
    while j < desired.len()
        invariant
            j <= desired.len(),
            hs@ == h0,
            forall|p: GridPosition| #[trigger] present@.contains(cell_key(p)) <==> marked(h0, p, k),
            forall|p: GridPosition|
                #[trigger] spawned_keys@.contains(cell_key(p)) <==> spawned@.contains(p),
            kept@.no_duplicates(),
            spawned@.no_duplicates(),
            forall|h: GridHighlight|
                #[trigger] kept@.contains(h) <==> ((h0.contains(h) && (h.kind != k
                    || desired@.contains(h.pos))) || (h.kind == k && spawned@.contains(h.pos))),
            forall|p: GridPosition|
                #[trigger] spawned@.contains(p) <==> (desired@.subrange(0, j as int).contains(p)
                    && !marked(h0, p, k)),
        decreases desired.len() - j,
    {
        let p = desired[j];
        let ghost kept0 = kept@;
        let ghost sp0 = spawned@;
        let ghost before = desired@.subrange(0, j as int);
        let ghost after = desired@.subrange(0, j as int + 1);
        proof {
            assert(p == desired@[j as int]);
            assert forall|x: GridPosition| #[trigger]
                after.contains(x) <==> (before.contains(x) || x == p) by {
                lemma_prefix_contains(desired@, j as int, x);
            }
            assert(desired@.contains(p));
        }
        let key = key_of(p);
        if !present.contains(&key) && !spawned_keys.contains(&key) {
            let h = GridHighlight { pos: p, kind: k };
            proof {
                assert(!kept0.contains(h));
            }
            kept.push(h);
            spawned.push(p);
            let ghost sk0 = spawned_keys@;
            spawned_keys.insert(key);
            proof {
                lemma_push_contains(kept0, h);
                lemma_push_contains(sp0, p);
                assert forall|q: GridPosition|
                    #[trigger] spawned_keys@.contains(cell_key(q)) <==> spawned@.contains(q) by {
                    lemma_cell_key_injective(p, q);
                }
            }
        }
        j = j + 1;
        proof {
            assert(desired@.subrange(0, j as int) == after);
        }
    }
    proof {
        assert(desired@.subrange(0, desired@.len() as int) =~= desired@);
    }
    *hs = kept;
    ReconcileOutcome { spawned, despawned }
}

/// A marker of kind `k` stands on `p` in `hs`.
pub fn has_marker(hs: &Vec<GridHighlight>, p: GridPosition, k: HighlightKind) -> (r: bool)
    ensures
        r == marked(hs@, p, k),
{
    let target = GridHighlight { pos: p, kind: k };
    let mut i: usize = 0;
    while i < hs.len()
        invariant
            i <= hs.len(),
            target == (GridHighlight { pos: p, kind: k }),
            forall|j: int| 0 <= j < i ==> hs@[j] != target,
        decreases hs.len() - i,
    {
        if hs[i] == target {
            assert(hs@[i as int] == target);
            return true;
        }
        i = i + 1;
    }
    false
}

} // verus!
