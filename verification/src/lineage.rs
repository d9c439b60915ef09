//! Where a block sits in the transclusion graph: its embedders, and the root pages reachable by
//! walking embed edges upward.

use vstd::prelude::*;
use crate::block::{display_title_for, display_title_of, opt_str_view, Block};
use crate::id::BlockId;
use crate::text::{chars_lt, chars_of, lemma_lex_irreflexive, lemma_lex_total, lemma_lex_transitive, lex_lt, string_from};
use crate::vault::{children_in, children_of, contains_id, ids_sorted, ids_view, index_of_id, lemma_index_from, lemma_index_of_sorted, Vault};

verus! {

// ---------------------------------------------------------------------------------------------
// The parent map.
// ---------------------------------------------------------------------------------------------

/// The first entry at or after `i` whose key is `c`.
pub open spec fn pm_index(es: Seq<(BlockId, Vec<BlockId>)>, c: Seq<char>, i: int) -> Option<int>
    decreases es.len() - i,
{
    if i < 0 || i >= es.len() {
        None
    } else if es[i].0@ == c {
        Some(i)
    } else {
        pm_index(es, c, i + 1)
    }
}

proof fn lemma_pm_index(es: Seq<(BlockId, Vec<BlockId>)>, c: Seq<char>, i: int)
    requires
        0 <= i,
    ensures
        pm_index(es, c, i) matches Some(k) ==> i <= k < es.len() && es[k].0@ == c,
        pm_index(es, c, i) is None ==> forall|k: int| i <= k < es.len() ==> es[k].0@ != c,
    decreases es.len() - i,
{
    if i < es.len() && es[i].0@ != c {
        lemma_pm_index(es, c, i + 1);
    }
}

/// Entries whose keys agree position by position have the same lookups.
proof fn lemma_pm_index_same_keys(
    es: Seq<(BlockId, Vec<BlockId>)>,
    fs: Seq<(BlockId, Vec<BlockId>)>,
    c: Seq<char>,
    i: int,
)
    requires
        0 <= i,
        es.len() == fs.len(),
        forall|k: int| 0 <= k < es.len() ==> (#[trigger] es[k]).0@ == fs[k].0@,
    ensures
        pm_index(es, c, i) == pm_index(fs, c, i),
    decreases es.len() - i,
{
    if i < es.len() {
        assert(es[i].0@ == fs[i].0@);
        lemma_pm_index_same_keys(es, fs, c, i + 1);
    }
}

/// Appending an entry with a key absent so far leaves other lookups unchanged.
proof fn lemma_pm_index_push(
    es: Seq<(BlockId, Vec<BlockId>)>,
    e: (BlockId, Vec<BlockId>),
    c: Seq<char>,
    i: int,
)
    requires
        0 <= i <= es.len(),
    ensures
        pm_index(es.push(e), c, i) == if pm_index(es, c, i) is Some {
            pm_index(es, c, i)
        } else if e.0@ == c {
            Some(es.len() as int)
        } else {
            None
        },
    decreases es.len() - i,
{
    if i < es.len() {
        assert(es.push(e)[i] == es[i]);
        lemma_pm_index_push(es, e, c, i + 1);
    } else {
        assert(es.push(e)[i] == e);
        if e.0@ != c {
            assert(pm_index(es.push(e), c, i + 1) is None);
        }
    }
}

/// All parents listed in the first `n` entries, concatenated.
pub open spec fn flat_values(es: Seq<(BlockId, Vec<BlockId>)>, n: int) -> Seq<Seq<char>>
    decreases n,
{
    if n <= 0 {
        seq![]
    } else {
        flat_values(es, n - 1) + ids_view(es[n - 1].1@)
    }
}

proof fn lemma_flat_values_contains(es: Seq<(BlockId, Vec<BlockId>)>, n: int, i: int, p: Seq<char>)
    requires
        0 <= i < n <= es.len(),
        ids_view(es[i].1@).contains(p),
    ensures
        flat_values(es, n).contains(p),
    decreases n,
{
    let k = choose|k: int| 0 <= k < ids_view(es[i].1@).len() && #[trigger] ids_view(es[i].1@)[k] == p;
    if i == n - 1 {
        assert(flat_values(es, n)[flat_values(es, n - 1).len() + k] == p);
    } else {
        lemma_flat_values_contains(es, n - 1, i, p);
        let j = choose|j: int| 0 <= j < flat_values(es, n - 1).len() && #[trigger] flat_values(es, n - 1)[j] == p;
        assert(flat_values(es, n)[j] == p);
    }
}

/// For each child id, the blocks that transclude it (`![[child]]`), in id order, one entry per
/// embed.
#[derive(Debug)]
pub struct ParentMap {
    entries: Vec<(BlockId, Vec<BlockId>)>,
}

impl ParentMap {
    /// The parents recorded for `c` (none when `c` has no entry).
    pub closed spec fn parents_of(self, c: Seq<char>) -> Seq<Seq<char>> {
        match pm_index(self.entries@, c, 0) {
            Some(i) => ids_view(self.entries@[i].1@),
            None => seq![],
        }
    }

    /// Every parent recorded in the map.
    pub closed spec fn all_parents(self) -> Seq<Seq<char>> {
        flat_values(self.entries@, self.entries@.len() as int)
    }

    /// Every recorded parent of any child is among all the parents.
    pub proof fn lemma_all_parents(self, c: Seq<char>, p: Seq<char>)
        requires
            self.parents_of(c).contains(p),
        ensures
            self.all_parents().contains(p),
    {
        lemma_pm_index(self.entries@, c, 0);
        let i = pm_index(self.entries@, c, 0)->0;
        lemma_flat_values_contains(self.entries@, self.entries@.len() as int, i, p);
    }

    /// An empty map.
    pub fn new() -> (r: ParentMap)
        ensures
            forall|c: Seq<char>| #[trigger] r.parents_of(c) == Seq::<Seq<char>>::empty(),
    {
        ParentMap { entries: Vec::new() }
    }

    fn find(&self, c: &BlockId) -> (r: Option<usize>)
        ensures
            match r {
                Some(i) => pm_index(self.entries@, c@, 0) == Some(i as int) && i
                    < self.entries@.len(),
                None => pm_index(self.entries@, c@, 0) is None,
            },
    {
        proof {
            lemma_pm_index(self.entries@, c@, 0);
        }
        let mut i: usize = 0;
        while i < self.entries.len()
            invariant
                i <= self.entries@.len(),
                pm_index(self.entries@, c@, 0) == pm_index(self.entries@, c@, i as int),
            decreases self.entries.len() - i,
        {
            if self.entries[i].0.same(c) {
                return Some(i);
            }
            i += 1;
        }
        None
    }

    /// The parents recorded for `c`.
    pub fn get(&self, c: &BlockId) -> (r: Vec<BlockId>)
        ensures
            ids_view(r@) == self.parents_of(c@),
    {
        match self.find(c) {
            Some(i) => clone_ids(&self.entries[i].1),
            None => Vec::new(),
        }
    }

    /// Record `p` as a parent of `c`.
    pub fn add(&mut self, c: &BlockId, p: &BlockId)
        ensures
            forall|x: Seq<char>|
                #[trigger] final(self).parents_of(x) == if x == c@ {
                    old(self).parents_of(x).push(p@)
                } else {
                    old(self).parents_of(x)
                },
    {
        let ghost es = self.entries@;
        proof {
            lemma_pm_index(es, c@, 0);
        }
        match self.find(c) {
            Some(i) => {
                let mut v: Vec<(BlockId, Vec<BlockId>)> = Vec::new();
                std::mem::swap(&mut v, &mut self.entries);
                let (k, mut ps) = v.remove(i);
                let ghost old_ps = ps@;
                let pc = p.clone();
                ps.push(pc);
                proof {
                    lemma_ids_push(old_ps, pc);
                }
                v.insert(i, (k, ps));
                self.entries = v;
                assert forall|x: Seq<char>|
                    #[trigger] self.parents_of(x) == if x == c@ {
                        old(self).parents_of(x).push(p@)
                    } else {
                        old(self).parents_of(x)
                    } by {
                    assert forall|q: int| 0 <= q < es.len() implies (#[trigger] es[q]).0@
                        == self.entries@[q].0@ by {
                        if q != i {
                            assert(self.entries@[q] == es[q]);
                        }
                    }
                    lemma_pm_index_same_keys(es, self.entries@, x, 0);
                    if x == c@ {
                        assert(ids_view(self.entries@[i as int].1@) =~= ids_view(old_ps).push(
                            p@,
                        ));
                    } else {
                        lemma_pm_index(es, x, 0);
                        if let Some(q) = pm_index(es, x, 0) {
                            assert(q != i);
                            assert(self.entries@[q] == es[q]);
                        }
                    }
                }
            },
            None => {
                let mut ps: Vec<BlockId> = Vec::new();
                let pc = p.clone();
                ps.push(pc);
                assert(ids_view(ps@) =~= seq![p@]);
                let e = (c.clone(), ps);
                let ghost ge = e;
                self.entries.push(e);
                assert forall|x: Seq<char>|
                    #[trigger] self.parents_of(x) == if x == c@ {
                        old(self).parents_of(x).push(p@)
                    } else {
                        old(self).parents_of(x)
                    } by {
                    lemma_pm_index_push(es, ge, x, 0);
                    lemma_pm_index(es, x, 0);
                    assert(self.entries@ == es.push(ge));
                    if let Some(q) = pm_index(es, x, 0) {
                        assert(self.entries@[q] == es[q]);
                    }
                    if x == c@ {
                        assert(ids_view(self.entries@[es.len() as int].1@) =~= seq![p@]);
                        assert(Seq::<Seq<char>>::empty().push(p@) =~= seq![p@]);
                    }
                }
            },
        }
    }

    /// Every parent recorded in the map, as one list.
    pub fn all_values(&self) -> (r: Vec<BlockId>)
        ensures
            ids_view(r@) == self.all_parents(),
    {
        let mut out: Vec<BlockId> = Vec::new();
        let mut i: usize = 0;
        while i < self.entries.len()
            invariant
                i <= self.entries@.len(),
                ids_view(out@) == flat_values(self.entries@, i as int),
            decreases self.entries.len() - i,
        {
            let vs = &self.entries[i].1;
            let ghost before = ids_view(out@);
            let mut j: usize = 0;
            while j < vs.len()
                invariant
                    j <= vs@.len(),
                    ids_view(out@) == before + ids_view(vs@.take(j as int)),
                decreases vs.len() - j,
            {
                let ghost ob = out@;
                let x = vs[j].clone();
                out.push(x);
                proof {
                    lemma_ids_push(ob, x);
                    lemma_ids_take(vs@, j as int);
                    assert(ids_view(out@) =~= before + ids_view(vs@.take(j + 1)));
                }
                j += 1;
            }
            assert(vs@.take(j as int) =~= vs@);
            i += 1;
        }
        out
    }
}

/// A copy of a list of ids.
pub fn clone_ids(v: &Vec<BlockId>) -> (r: Vec<BlockId>)
    ensures
        ids_view(r@) == ids_view(v@),
{
    let mut out: Vec<BlockId> = Vec::new();
    let mut i: usize = 0;
    while i < v.len()
        invariant
            i <= v@.len(),
            out@.len() == i,
            forall|k: int| 0 <= k < i ==> (#[trigger] out@[k])@ == v@[k]@,
        decreases v.len() - i,
    {
        out.push(v[i].clone());
        i += 1;
    }
    assert(ids_view(out@) =~= ids_view(v@));
    out
}

proof fn lemma_ids_push(v: Seq<BlockId>, x: BlockId)
    ensures
        ids_view(v.push(x)) == ids_view(v).push(x@),
{
    assert(ids_view(v.push(x)) =~= ids_view(v).push(x@));
}

proof fn lemma_ids_take(v: Seq<BlockId>, j: int)
    requires
        0 <= j < v.len(),
    ensures
        ids_view(v.take(j + 1)) == ids_view(v.take(j)).push(v[j]@),
{
    assert(ids_view(v.take(j + 1)) =~= ids_view(v.take(j)).push(v[j]@));
}

proof fn lemma_to_set_push(s: Seq<Seq<char>>, x: Seq<char>)
    ensures
        s.push(x).to_set() == s.to_set().insert(x),
{
    assert forall|y: Seq<char>| s.push(x).to_set().contains(y) <==> s.to_set().insert(x).contains(y) by {
        if s.push(x).contains(y) {
            let k = choose|k: int| 0 <= k < s.push(x).len() && s.push(x)[k] == y;
            if k < s.len() {
                assert(s[k] == y);
            }
        }
        if s.contains(y) {
            let k = choose|k: int| 0 <= k < s.len() && s[k] == y;
            assert(s.push(x)[k] == y);
        }
        if y == x {
            assert(s.push(x)[s.len() as int] == x);
        }
    }
    assert(s.push(x).to_set() =~= s.to_set().insert(x));
}

proof fn lemma_to_set_single(x: Seq<char>)
    ensures
        seq![x].to_set() == set![x],
{
    lemma_to_set_push(Seq::<Seq<char>>::empty(), x);
    assert(Seq::<Seq<char>>::empty().push(x) =~= seq![x]);
    assert(Seq::<Seq<char>>::empty().to_set() =~= Set::<Seq<char>>::empty());
    assert(set![x] =~= Set::<Seq<char>>::empty().insert(x));
}

/// The number of occurrences of `x` in `s`.
pub open spec fn count_of(s: Seq<Seq<char>>, x: Seq<char>) -> nat
    decreases s.len(),
{
    if s.len() == 0 {
        0
    } else {
        count_of(s.drop_last(), x) + if s.last() == x {
            1nat
        } else {
            0nat
        }
    }
}

/// `n` copies of `x`.
pub open spec fn repeat(x: Seq<char>, n: nat) -> Seq<Seq<char>> {
    Seq::new(n, |k: int| x)
}

/// The embedders of `c` among the first `n` blocks, each listed once per embed.
pub open spec fn parent_list(bs: Seq<Block>, c: Seq<char>, n: int) -> Seq<Seq<char>>
    decreases n,
{
    if n <= 0 {
        seq![]
    } else {
        parent_list(bs, c, n - 1) + repeat(bs[n - 1].id@, count_of(children_in(bs, bs[n - 1]), c))
    }
}

impl Vault {
    /// Build the embed parent map once: child id → the blocks that transclude it.
    pub fn embed_parent_map(&self) -> (r: ParentMap)
        ensures
            forall|c: Seq<char>|
                #[trigger] r.parents_of(c) == parent_list(
                    self.entries(),
                    c,
                    self.entries().len() as int,
                ),
    {
        let blocks = self.blocks();
        let ghost bs = self.entries();
        let mut map = ParentMap::new();
        let mut i: usize = 0;
        while i < blocks.len()
            invariant
                i <= blocks@.len(),
                blocks@.map_values(|b: &Block| *b) == bs,
                bs == self.entries(),
                forall|c: Seq<char>| #[trigger] map.parents_of(c) == parent_list(bs, c, i as int),
            decreases blocks.len() - i,
        {
            let parent = blocks[i];
            assert(*parent == bs[i as int]);
            let kids = self.children_of_block(parent);
            let ghost kv = ids_view(kids@);
            let mut j: usize = 0;
            while j < kids.len()
                invariant
                    j <= kids@.len(),
                    kv == ids_view(kids@),
                    *parent == bs[i as int],
                    forall|c: Seq<char>|
                        #[trigger] map.parents_of(c) == parent_list(bs, c, i as int) + repeat(
                            parent.id@,
                            count_of(kv.take(j as int), c),
                        ),
                decreases kids.len() - j,
            {
                let ghost before = map;
                map.add(&kids[j], &parent.id);
                assert forall|c: Seq<char>|
                    #[trigger] map.parents_of(c) == parent_list(bs, c, i as int) + repeat(
                        parent.id@,
                        count_of(kv.take(j + 1), c),
                    ) by {
                    assert(kv.take(j + 1).drop_last() =~= kv.take(j as int));
                    if c == kv[j as int] {
                        assert(repeat(parent.id@, count_of(kv.take(j as int), c)).push(parent.id@)
                            =~= repeat(parent.id@, count_of(kv.take(j as int), c) + 1));
                        assert((parent_list(bs, c, i as int) + repeat(
                            parent.id@,
                            count_of(kv.take(j as int), c),
                        )).push(parent.id@) =~= parent_list(bs, c, i as int) + repeat(
                            parent.id@,
                            count_of(kv.take(j as int), c) + 1,
                        ));
                    }
                }
                j += 1;
            }
            assert forall|c: Seq<char>|
                #[trigger] map.parents_of(c) == parent_list(bs, c, i + 1) by {
                assert(kv.take(j as int) =~= kv);
                assert(kv == children_in(bs, bs[i as int]));
            }
            i += 1;
        }
        map
    }
}

// ---------------------------------------------------------------------------------------------
// Upward reachability.
// ---------------------------------------------------------------------------------------------

/// The parents of any member of `s`.
pub open spec fn step(pm: ParentMap, s: Set<Seq<char>>) -> Set<Seq<char>> {
    Set::new(|p: Seq<char>| exists|x: Seq<char>| s.contains(x) && #[trigger] pm.parents_of(x).contains(p))
}

/// The ids within `k` embed-hops upward of `id`.
pub open spec fn reach(pm: ParentMap, id: Seq<char>, k: nat) -> Set<Seq<char>>
    decreases k,
{
    if k == 0 {
        set![id]
    } else {
        reach(pm, id, (k - 1) as nat).union(step(pm, reach(pm, id, (k - 1) as nat)))
    }
}

/// Whether `x` can be reached from `id` by walking embed edges upward.
pub open spec fn reachable(pm: ParentMap, id: Seq<char>, x: Seq<char>) -> bool {
    exists|k: nat| #[trigger] reach(pm, id, k).contains(x)
}

/// Whether nothing embeds `x`.
pub open spec fn is_top(pm: ParentMap, x: Seq<char>) -> bool {
    pm.parents_of(x).len() == 0
}

/// Whether some id within `k` hops is a root.
pub open spec fn root_within(pm: ParentMap, id: Seq<char>, k: nat) -> bool {
    exists|x: Seq<char>| #[trigger] reach(pm, id, k).contains(x) && is_top(pm, x)
}

proof fn lemma_reach_mono(pm: ParentMap, id: Seq<char>, j: nat, k: nat)
    requires
        j <= k,
    ensures
        reach(pm, id, j).subset_of(reach(pm, id, k)),
    decreases k - j,
{
    if j < k {
        lemma_reach_mono(pm, id, j, (k - 1) as nat);
    }
}

proof fn lemma_reach_fix(pm: ParentMap, id: Seq<char>, k: nat, j: nat)
    requires
        reach(pm, id, k + 1) == reach(pm, id, k),
        k <= j,
    ensures
        reach(pm, id, j) == reach(pm, id, k),
    decreases j - k,
{
    if j > k {
        lemma_reach_fix(pm, id, k, (j - 1) as nat);
    }
}

/// Whether `a` ascends strictly (so it holds no repeats).
pub open spec fn strictly_sorted(a: Seq<Seq<char>>) -> bool {
    forall|i: int, j: int| 0 <= i < j < a.len() ==> lex_lt(#[trigger] a[i], #[trigger] a[j])
}

/// A block referenced by id + its display title — a single step in a breadcrumb.
#[derive(Debug, PartialEq, Eq)]
pub struct Crumb {
    /// The block's id.
    pub id: BlockId,
    /// The block's display title (the id when the block is unknown).
    pub title: String,
}

/// The upward context of a block in the transclusion graph.
#[derive(Debug, PartialEq, Eq)]
pub struct Lineage {
    /// Whether nothing transcludes the block.
    pub is_root: bool,
    /// Fewest embed-hops from the block up to a root (`0` for a root, or when none is reachable).
    pub depth: usize,
    /// The blocks that directly transclude this one.
    pub parents: Vec<Crumb>,
    /// The distinct roots reachable upward, in id order.
    pub roots: Vec<Crumb>,
}

/// The display title used in a crumb for `x`.
pub open spec fn crumb_title(bs: Seq<Block>, x: Seq<char>) -> Seq<char> {
    match index_of_id(bs, x) {
        Some(i) => display_title_of(opt_str_view(bs[i].title), bs[i].body@, bs[i].id@),
        None => x,
    }
}

pub open spec fn crumbs_view(v: Seq<Crumb>) -> Seq<(Seq<char>, Seq<char>)> {
    v.map_values(|c: Crumb| (c.id@, c.title@))
}

pub open spec fn crumbs_of(bs: Seq<Block>, ids: Seq<Seq<char>>) -> Seq<(Seq<char>, Seq<char>)> {
    ids.map_values(|x: Seq<char>| (x, crumb_title(bs, x)))
}

impl Vault {
    /// The crumb for `x`.
    pub fn crumb(&self, x: &BlockId) -> (r: Crumb)
        ensures
            r.id@ == x@,
            r.title@ == crumb_title(self.entries(), x@),
    {
        match self.block(x) {
            Some(b) => Crumb { id: x.clone(), title: display_title_for(&b.title, &b.body, &b.id) },
            None => {
                let v = chars_of(x.as_str());
                Crumb { id: x.clone(), title: string_from(&v) }
            },
        }
    }

    fn crumbs(&self, ids: &Vec<BlockId>) -> (r: Vec<Crumb>)
        ensures
            crumbs_view(r@) == crumbs_of(self.entries(), ids_view(ids@)),
    {
        let mut out: Vec<Crumb> = Vec::new();
        let mut i: usize = 0;
        while i < ids.len()
            invariant
                i <= ids@.len(),
                out@.len() == i,
                forall|k: int|
                    0 <= k < i ==> (#[trigger] out@[k]).id@ == ids@[k]@ && out@[k].title@
                        == crumb_title(self.entries(), ids@[k]@),
            decreases ids.len() - i,
        {
            out.push(self.crumb(&ids[i]));
            i += 1;
        }
        assert(crumbs_view(out@) =~= crumbs_of(self.entries(), ids_view(ids@)));
        out
    }

    /// The upward lineage of a block, building the parent map internally.
    pub fn lineage(&self, id: &BlockId) -> (r: Lineage)
        ensures
            exists|pm: ParentMap|
                (forall|c: Seq<char>|
                    #[trigger] pm.parents_of(c) == parent_list(
                        self.entries(),
                        c,
                        self.entries().len() as int,
                    )) && lineage_spec(self.entries(), pm, id@, r),
    {
        let pm = self.embed_parent_map();
        let r = self.lineage_with(&pm, id);
        r
    }

    /// The lineage of `id` given a parent map: whether it is a root, its fewest embed-hops to a
    /// root, its immediate transcluders, and the distinct roots reachable upward (in id order).
    /// The walk is breadth-first and cycle-safe.
    pub fn lineage_with(&self, parents: &ParentMap, id: &BlockId) -> (r: Lineage)
        ensures
            lineage_spec(self.entries(), *parents, id@, r),
    {
        let immediate = parents.get(id);
        let is_root = immediate.len() == 0;
        let all = parents.all_values();
        let mut visited: Vec<BlockId> = Vec::new();
        visited.push(id.clone());
        let mut frontier: Vec<BlockId> = Vec::new();
        frontier.push(id.clone());
        let mut root_ids: Vec<BlockId> = Vec::new();
        let mut depth: Option<usize> = None;
        let mut level: usize = 0;
        let ghost pm = *parents;
        let ghost idv = id@;
        proof {
            assert(ids_view(visited@) =~= seq![idv]);
            assert(ids_view(frontier@) =~= seq![idv]);
            lemma_to_set_single(idv);
            assert(ids_view(root_ids@).to_set() =~= Set::<Seq<char>>::empty());
        }
        while frontier.len() > 0
            invariant
                pm == *parents,
                idv == id@,
                ids_view(all@) == pm.all_parents(),
                ids_view(visited@).no_duplicates(),
                ids_view(visited@).to_set() == reach(pm, idv, level as nat),
                ids_view(frontier@).to_set() == (if level == 0 {
                    reach(pm, idv, 0)
                } else {
                    reach(pm, idv, level as nat).difference(reach(pm, idv, (level - 1) as nat))
                }),
                ids_view(frontier@).no_duplicates(),
                forall|v: Seq<char>|
                    ids_view(visited@).contains(v) ==> v == idv || ids_view(all@).contains(v),
                ids_view(root_ids@).no_duplicates(),
                ids_view(root_ids@).to_set() == (if level == 0 {
                    Set::<Seq<char>>::empty()
                } else {
                    reach(pm, idv, (level - 1) as nat).filter(|x: Seq<char>| is_top(pm, x))
                }),
                depth is None ==> level == 0 || !root_within(pm, idv, (level - 1) as nat),
                depth matches Some(d) ==> d < level && root_within(pm, idv, d as nat) && (d == 0
                    || !root_within(pm, idv, (d - 1) as nat)),
                level <= visited@.len(),
                frontier@.len() > 0 ==> level + 1 <= visited@.len(),
                visited@.len() <= all@.len() + 1,
            decreases all@.len() + 1 - visited@.len(), frontier@.len(),
        {
            let _vl = visited.len();
            let found = add_roots(parents, &frontier, &mut root_ids);
            if found && depth.is_none() {
                depth = Some(level);
            }
            let ghost old_visited = ids_view(visited@);
            let next = expand(parents, &frontier, &mut visited);
            proof {
                lemma_level_step(pm, idv, level as nat, old_visited.to_set(), ids_view(frontier@).to_set());
                if level > 0 {
                    lemma_reach_mono(pm, idv, (level - 1) as nat, level as nat);
                }
                assert forall|v: Seq<char>|
                    ids_view(visited@).contains(v) implies v == idv || ids_view(all@).contains(v) by {
                    if !old_visited.contains(v) {
                        assert(ids_view(visited@).to_set().contains(v));
                        let x = choose|x: Seq<char>|
                            ids_view(frontier@).to_set().contains(x) && #[trigger] pm.parents_of(
                                x,
                            ).contains(v);
                        pm.lemma_all_parents(x, v);
                    }
                }
                if found && depth == Some(level) {
                    let x = choose|x: Seq<char>|
                        ids_view(frontier@).to_set().contains(x) && is_top(pm, x);
                    assert(reach(pm, idv, level as nat).contains(x));
                }
                if level > 0 && depth == Some(level) {
                    assert forall|x: Seq<char>|
                        #[trigger] reach(pm, idv, (level - 1) as nat).contains(x) implies !is_top(
                            pm,
                            x,
                        ) by {}
                }
            }
            proof {
                lemma_visited_bound(pm, idv, ids_view(visited@), ids_view(all@));
            }
            frontier = next;
            level = level + 1;
        }
        proof {
            // The walk stopped: nothing new was reached, so the reach sets are fixed.
            if level == 0 {
                assert(reach(pm, idv, 0).contains(idv));
                assert(ids_view(frontier@).to_set().contains(idv));
            }
            assert(level > 0);
            assert(reach(pm, idv, level as nat) =~= reach(pm, idv, (level - 1) as nat)) by {
                assert forall|x: Seq<char>| reach(pm, idv, level as nat).contains(x) implies reach(
                    pm,
                    idv,
                    (level - 1) as nat,
                ).contains(x) by {
                    if !reach(pm, idv, (level - 1) as nat).contains(x) {
                        assert(ids_view(frontier@).to_set().contains(x));
                    }
                }
            }
        }
        let sorted = sort_ids(&root_ids);
        let roots = self.crumbs(&sorted);
        let parents_out = self.crumbs(&immediate);
        let d = match depth {
            Some(d) => d,
            None => 0,
        };
        proof {
            let k = (level - 1) as nat;
            assert forall|j: nat| #[trigger] reach(pm, idv, j).subset_of(reach(pm, idv, k)) by {
                if j <= k {
                    lemma_reach_mono(pm, idv, j, k);
                } else {
                    lemma_reach_fix(pm, idv, k, j);
                }
            }
            assert forall|x: Seq<char>|
                ids_view(sorted@).to_set().contains(x) <==> reachable(pm, idv, x) && is_top(pm, x) by {
                if reachable(pm, idv, x) {
                    let j = choose|j: nat| #[trigger] reach(pm, idv, j).contains(x);
                    assert(reach(pm, idv, j).subset_of(reach(pm, idv, k)));
                }
                if ids_view(sorted@).to_set().contains(x) {
                    assert(reach(pm, idv, k).contains(x));
                }
            }
            if depth is None {
                assert forall|j: nat| !root_within(pm, idv, j) by {
                    assert(reach(pm, idv, j).subset_of(reach(pm, idv, k)));
                    if root_within(pm, idv, j) {
                        let x = choose|x: Seq<char>| #[trigger] reach(pm, idv, j).contains(x) && is_top(pm, x);
                        assert(reach(pm, idv, k).contains(x));
                    }
                }
            } else {
                let dd = depth->0;
                assert forall|j: nat| j < dd implies !root_within(pm, idv, j) by {
                    lemma_reach_mono(pm, idv, j, (dd - 1) as nat);
                    if root_within(pm, idv, j) {
                        let x = choose|x: Seq<char>| #[trigger] reach(pm, idv, j).contains(x) && is_top(pm, x);
                        assert(reach(pm, idv, (dd - 1) as nat).contains(x));
                    }
                }
            }
        }
        let r = Lineage { is_root, depth: d, parents: parents_out, roots };
        proof {
            let ids = ids_view(sorted@);
            assert(r.is_root == is_top(pm, idv));
            assert(crumbs_view(r.parents@) == crumbs_of(self.entries(), pm.parents_of(idv)));
            assert(crumbs_view(r.roots@) == crumbs_of(self.entries(), ids));
            assert(strictly_sorted(ids));
            assert forall|x: Seq<char>| ids.contains(x) <==> reachable(pm, idv, x) && is_top(pm, x) by {
                assert(ids.contains(x) <==> ids.to_set().contains(x));
            }
            assert((forall|j: nat| !root_within(pm, idv, j)) ==> r.depth == 0);
            assert((exists|j: nat| root_within(pm, idv, j)) ==> root_within(pm, idv, r.depth as nat));
            assert((exists|j: nat| root_within(pm, idv, j)) ==> forall|j: nat| j < r.depth ==> !root_within(pm, idv, j));
        }
        r
    }
}

/// What a lineage states: `is_root` says nothing embeds `id`; `parents` are its embedders with
/// their titles; `roots` are the distinct reachable roots in id order; `depth` is the fewest
/// hops to a root (0 when none is reachable).
pub open spec fn lineage_spec(bs: Seq<Block>, pm: ParentMap, id: Seq<char>, r: Lineage) -> bool {
    &&& r.is_root == is_top(pm, id)
    &&& crumbs_view(r.parents@) == crumbs_of(bs, pm.parents_of(id))
    &&& exists|ids: Seq<Seq<char>>|
        #![trigger crumbs_of(bs, ids)]
        crumbs_view(r.roots@) == crumbs_of(bs, ids) && strictly_sorted(ids) && (forall|
            x: Seq<char>,
        | ids.contains(x) <==> reachable(pm, id, x) && is_top(pm, x))
    &&& (forall|j: nat| !root_within(pm, id, j)) ==> r.depth == 0
    &&& (exists|j: nat| root_within(pm, id, j)) ==> root_within(pm, id, r.depth as nat) && forall|
        j: nat,
    | j < r.depth ==> !root_within(pm, id, j)
}

proof fn lemma_visited_bound(pm: ParentMap, id: Seq<char>, visited: Seq<Seq<char>>, all: Seq<Seq<char>>)
    requires
        visited.no_duplicates(),
        forall|v: Seq<char>| visited.contains(v) ==> v == id || all.contains(v),
    ensures
        visited.len() <= all.len() + 1,
{
    let universe = seq![id] + all;
    assert(visited.to_set().subset_of(universe.to_set())) by {
        assert forall|v: Seq<char>| visited.to_set().contains(v) implies universe.to_set().contains(v) by {
            if v == id {
                assert(universe[0] == id);
            } else {
                let k = choose|k: int| 0 <= k < all.len() && all[k] == v;
                assert(universe[k + 1] == v);
            }
        }
    }
    visited.unique_seq_to_set();
    universe.lemma_cardinality_of_set();
    vstd::set_lib::lemma_len_subset(visited.to_set(), universe.to_set());
}

/// One breadth-first step: from `reach(k)` with frontier `reach(k) \ reach(k-1)`, adding the
/// parents of the frontier gives `reach(k+1)`.
proof fn lemma_level_step(pm: ParentMap, id: Seq<char>, k: nat, visited: Set<Seq<char>>, frontier: Set<Seq<char>>)
    requires
        visited == reach(pm, id, k),
        frontier == (if k == 0 {
            reach(pm, id, 0)
        } else {
            reach(pm, id, k).difference(reach(pm, id, (k - 1) as nat))
        }),
    ensures
        visited.union(step(pm, frontier)) == reach(pm, id, k + 1),
{
    let next = reach(pm, id, k + 1);
    assert forall|p: Seq<char>| next.contains(p) implies visited.union(step(pm, frontier)).contains(p) by {
        if !visited.contains(p) {
            assert(step(pm, reach(pm, id, k)).contains(p));
            let x = choose|x: Seq<char>| reach(pm, id, k).contains(x) && #[trigger] pm.parents_of(x).contains(p);
            if k > 0 && reach(pm, id, (k - 1) as nat).contains(x) {
                assert(step(pm, reach(pm, id, (k - 1) as nat)).contains(p));
                assert(reach(pm, id, k).contains(p));
            } else {
                assert(frontier.contains(x));
                assert(step(pm, frontier).contains(p));
            }
        }
    }
    assert forall|p: Seq<char>| visited.union(step(pm, frontier)).contains(p) implies next.contains(p) by {
        if step(pm, frontier).contains(p) {
            let x = choose|x: Seq<char>| frontier.contains(x) && #[trigger] pm.parents_of(x).contains(p);
            assert(reach(pm, id, k).contains(x));
            assert(step(pm, reach(pm, id, k)).contains(p));
        }
    }
    assert(visited.union(step(pm, frontier)) =~= next);
}

/// Add to `roots` each member of `frontier` that nothing embeds; report whether there was one.
fn add_roots(pm: &ParentMap, frontier: &Vec<BlockId>, roots: &mut Vec<BlockId>) -> (found: bool)
    requires
        ids_view(old(roots)@).no_duplicates(),
    ensures
        ids_view(final(roots)@).no_duplicates(),
        ids_view(final(roots)@).to_set() == ids_view(old(roots)@).to_set().union(
            ids_view(frontier@).to_set().filter(|x: Seq<char>| is_top(*pm, x)),
        ),
        found == exists|x: Seq<char>| ids_view(frontier@).to_set().contains(x) && is_top(*pm, x),
{
    let ghost start = ids_view(roots@).to_set();
    let mut found = false;
    let mut i: usize = 0;
    while i < frontier.len()
        invariant
            i <= frontier@.len(),
            ids_view(roots@).no_duplicates(),
            start == ids_view(old(roots)@).to_set(),
            ids_view(roots@).to_set() == start.union(
                ids_view(frontier@.take(i as int)).to_set().filter(|x: Seq<char>| is_top(*pm, x)),
            ),
            found == exists|x: Seq<char>|
                ids_view(frontier@.take(i as int)).to_set().contains(x) && is_top(*pm, x),
        decreases frontier.len() - i,
    {
        let x = &frontier[i];
        let ps = pm.get(x);
        let ghost before = ids_view(roots@);
        proof {
            lemma_ids_take(frontier@, i as int);
            lemma_to_set_push(ids_view(frontier@.take(i as int)), x@);
        }
        if ps.len() == 0 {
            found = true;
            if !contains_id(&roots, x) {
                let ghost rraw = roots@;
                let xc = x.clone();
                roots.push(xc);
                proof {
                    lemma_ids_push(rraw, xc);
                    lemma_to_set_push(before, x@);
                }
                proof {
                    assert forall|a: int, b: int| 0 <= a < b < ids_view(roots@).len() implies ids_view(roots@)[a] != ids_view(roots@)[b] by {
                        if b == before.len() {
                            assert(before.contains(before[a]));
                        }
                    }
                }
            }
        }
        assert(ids_view(roots@).to_set() =~= start.union(
            ids_view(frontier@.take(i + 1)).to_set().filter(|y: Seq<char>| is_top(*pm, y)),
        ));
        proof {
            let t1 = ids_view(frontier@.take(i + 1)).to_set();
            let t0 = ids_view(frontier@.take(i as int)).to_set();
            assert(t1 == t0.insert(x@));
            if ps.len() == 0 {
                assert(t1.contains(x@));
                assert(is_top(*pm, x@));
            } else {
                assert(!is_top(*pm, x@));
                if exists|y: Seq<char>| t1.contains(y) && is_top(*pm, y) {
                    let y = choose|y: Seq<char>| t1.contains(y) && is_top(*pm, y);
                    assert(y != x@);
                    assert(t0.contains(y));
                }
            }
        }
        i += 1;
    }
    assert(frontier@.take(i as int) =~= frontier@);
    found
}

/// Add to `visited` each parent of a member of `frontier` not yet visited; return those added.
fn expand(pm: &ParentMap, frontier: &Vec<BlockId>, visited: &mut Vec<BlockId>) -> (next: Vec<BlockId>)
    requires
        ids_view(old(visited)@).no_duplicates(),
    ensures
        ids_view(final(visited)@).no_duplicates(),
        ids_view(next@).no_duplicates(),
        ids_view(final(visited)@).to_set() == ids_view(old(visited)@).to_set().union(
            step(*pm, ids_view(frontier@).to_set()),
        ),
        ids_view(next@).to_set() == ids_view(final(visited)@).to_set().difference(
            ids_view(old(visited)@).to_set(),
        ),
        final(visited)@.len() == old(visited)@.len() + next@.len(),
{
    let ghost start = ids_view(visited@).to_set();
    let ghost start_len = visited@.len();
    let mut next: Vec<BlockId> = Vec::new();
    let mut i: usize = 0;
    while i < frontier.len()
        invariant
            i <= frontier@.len(),
            start == ids_view(old(visited)@).to_set(),
            start_len == old(visited)@.len(),
            ids_view(visited@).no_duplicates(),
            ids_view(next@).no_duplicates(),
            ids_view(visited@).to_set() == start.union(step(*pm, ids_view(frontier@.take(i as int)).to_set())),
            ids_view(next@).to_set() == ids_view(visited@).to_set().difference(start),
            visited@.len() == start_len + next@.len(),
        decreases frontier.len() - i,
    {
        let x = &frontier[i];
        let ps = pm.get(x);
        let ghost fset = ids_view(frontier@.take(i as int)).to_set();
        let ghost visited_before = ids_view(visited@).to_set();
        let mut j: usize = 0;
        while j < ps.len()
            invariant
                j <= ps@.len(),
                ids_view(ps@) == pm.parents_of(x@),
                start == ids_view(old(visited)@).to_set(),
                ids_view(visited@).no_duplicates(),
                ids_view(next@).no_duplicates(),
                ids_view(visited@).to_set() == visited_before.union(ids_view(ps@.take(j as int)).to_set()),
                ids_view(next@).to_set() == ids_view(visited@).to_set().difference(start),
                visited_before.subset_of(ids_view(visited@).to_set()),
                start.subset_of(visited_before),
                visited@.len() == start_len + next@.len(),
            decreases ps.len() - j,
        {
            let p = &ps[j];
            let ghost vb = ids_view(visited@);
            let ghost nb = ids_view(next@);
            proof {
                lemma_ids_take(ps@, j as int);
                lemma_to_set_push(ids_view(ps@.take(j as int)), p@);
            }
            if !contains_id(&visited, p) {
                let pc1 = p.clone();
                let pc2 = p.clone();
                let ghost vraw = visited@;
                let ghost nraw = next@;
                visited.push(pc1);
                next.push(pc2);
                proof {
                    lemma_ids_push(vraw, pc1);
                    lemma_ids_push(nraw, pc2);
                    lemma_to_set_push(vb, p@);
                    lemma_to_set_push(nb, p@);
                }
                proof {
                    assert forall|a: int, b: int| 0 <= a < b < ids_view(visited@).len() implies ids_view(visited@)[a] != ids_view(visited@)[b] by {
                        if b == vb.len() {
                            assert(vb.contains(vb[a]));
                        }
                    }
                    assert(!start.contains(p@));
                    assert forall|a: int, b: int| 0 <= a < b < ids_view(next@).len() implies ids_view(next@)[a] != ids_view(next@)[b] by {
                        if b == nb.len() {
                            assert(nb.to_set().contains(nb[a]));
                            assert(vb.to_set().contains(nb[a]));
                        }
                    }
                }
                assert(ids_view(visited@).to_set() =~= vb.to_set().insert(p@));
                assert(ids_view(next@).to_set() =~= nb.to_set().insert(p@));
                assert(ids_view(next@).to_set() =~= ids_view(visited@).to_set().difference(start));
            } else {
                assert(vb.to_set().contains(p@));
            }
            assert(ids_view(visited@).to_set() =~= visited_before.union(ids_view(ps@.take(j + 1)).to_set()));
            j += 1;
        }
        assert(ps@.take(j as int) =~= ps@);
        proof {
            lemma_ids_take(frontier@, i as int);
            lemma_to_set_push(ids_view(frontier@.take(i as int)), x@);
        }
        assert(step(*pm, fset.insert(x@)) =~= step(*pm, fset).union(ids_view(ps@).to_set())) by {
            assert forall|q: Seq<char>| step(*pm, fset.insert(x@)).contains(q) implies step(*pm, fset).union(ids_view(ps@).to_set()).contains(q) by {
                let y = choose|y: Seq<char>| fset.insert(x@).contains(y) && #[trigger] pm.parents_of(y).contains(q);
                if y != x@ {
                    assert(step(*pm, fset).contains(q));
                }
            }
            assert forall|q: Seq<char>| step(*pm, fset).union(ids_view(ps@).to_set()).contains(q) implies step(*pm, fset.insert(x@)).contains(q) by {
                if ids_view(ps@).to_set().contains(q) {
                    assert(pm.parents_of(x@).contains(q));
                } else {
                    let y = choose|y: Seq<char>| fset.contains(y) && #[trigger] pm.parents_of(y).contains(q);
                    assert(fset.insert(x@).contains(y));
                }
            }
        }
        assert(ids_view(visited@).to_set() =~= start.union(step(*pm, ids_view(frontier@.take(i + 1)).to_set())));
        i += 1;
    }
    assert(frontier@.take(i as int) =~= frontier@);
    next
}

/// Sort distinct ids into ascending order.
pub fn sort_ids(v: &Vec<BlockId>) -> (r: Vec<BlockId>)
    requires
        ids_view(v@).no_duplicates(),
    ensures
        strictly_sorted(ids_view(r@)),
        ids_view(r@).to_set() == ids_view(v@).to_set(),
{
    let mut out: Vec<BlockId> = Vec::new();
    let mut i: usize = 0;
    while i < v.len()
        invariant
            i <= v@.len(),
            ids_view(v@).no_duplicates(),
            strictly_sorted(ids_view(out@)),
            ids_view(out@).to_set() == ids_view(v@.take(i as int)).to_set(),
        decreases v.len() - i,
    {
        let x = &v[i];
        let xc = chars_of(x.as_str());
        let ghost ov = ids_view(out@);
        assert(!ov.to_set().contains(x@)) by {
            if ov.to_set().contains(x@) {
                assert(ids_view(v@.take(i as int)).to_set().contains(x@));
                let k = choose|k: int| 0 <= k < i && ids_view(v@.take(i as int))[k] == x@;
                assert(ids_view(v@)[k] == ids_view(v@)[i as int]);
            }
        }
        let mut p: usize = 0;
        while p < out.len() && id_lt(&out[p], &xc)
            invariant
                p <= out@.len(),
                ov == ids_view(out@),
                xc@ == x@,
                forall|k: int| 0 <= k < p ==> lex_lt(ov[k], x@),
            decreases out.len() - p,
        {
            p += 1;
        }
        proof {
            if p < ov.len() {
                assert(ov[p as int] != x@) by {
                    if ov[p as int] == x@ {
                        assert(ov.to_set().contains(x@));
                    }
                }
                lemma_lex_total(ov[p as int], x@);
            }
        }
        out.insert(p, x.clone());
        let ghost nv = ids_view(out@);
        assert(nv =~= ov.insert(p as int, x@));
        proof {
            assert forall|a: int, b: int| 0 <= a < b < nv.len() implies lex_lt(#[trigger] nv[a], #[trigger] nv[b]) by {
                if b < p {
                } else if b == p {
                } else if a < p {
                    if b - 1 > p {
                        lemma_lex_transitive(x@, ov[p as int], ov[b - 1]);
                    }
                    lemma_lex_transitive(ov[a], x@, ov[b - 1]);
                } else if a == p {
                    if b - 1 > p {
                        lemma_lex_transitive(x@, ov[p as int], ov[b - 1]);
                    }
                } else {
                }
            }
        }
        assert(nv.to_set() =~= ids_view(v@.take(i + 1)).to_set()) by {
            lemma_ids_take(v@, i as int);
            lemma_to_set_push(ids_view(v@.take(i as int)), x@);
            assert forall|y: Seq<char>| nv.to_set().contains(y) <==> ov.to_set().insert(x@).contains(y) by {
                if nv.to_set().contains(y) {
                    let k = choose|k: int| 0 <= k < nv.len() && nv[k] == y;
                    if k < p {
                        assert(ov[k] == y);
                    } else if k > p {
                        assert(ov[k - 1] == y);
                    }
                }
                if ov.to_set().contains(y) {
                    let k = choose|k: int| 0 <= k < ov.len() && ov[k] == y;
                    if k < p {
                        assert(nv[k] == y);
                    } else {
                        assert(nv[k + 1] == y);
                    }
                }
                if y == x@ {
                    assert(nv[p as int] == y);
                }
            }
        }
        i += 1;
    }
    assert(v@.take(i as int) =~= v@);
    out
}

fn id_lt(a: &BlockId, b: &Vec<char>) -> (r: bool)
    ensures
        r == lex_lt(a@, b@),
{
    let av = chars_of(a.as_str());
    chars_lt(&av, b)
}

// ---------------------------------------------------------------------------------------------
// The parent map's law.
// ---------------------------------------------------------------------------------------------

proof fn lemma_count_of(s: Seq<Seq<char>>, x: Seq<char>)
    ensures
        count_of(s, x) > 0 <==> s.contains(x),
    decreases s.len(),
{
    if s.len() > 0 {
        lemma_count_of(s.drop_last(), x);
        if s.drop_last().contains(x) {
            let p = choose|p: int| 0 <= p < s.drop_last().len() && s.drop_last()[p] == x;
            assert(s[p] == x);
        }
        if s.contains(x) && s.last() != x {
            let p = choose|p: int| 0 <= p < s.len() && s[p] == x;
            assert(s.drop_last()[p] == x);
        }
    }
}

proof fn lemma_parent_list_upto(bs: Seq<Block>, c: Seq<char>, n: int)
    requires
        ids_sorted(bs),
        0 <= n <= bs.len(),
    ensures
        forall|p: Seq<char>|
            #[trigger] parent_list(bs, c, n).contains(p) <==> exists|k: int|
                0 <= k < n && bs[k].id@ == p && children_in(bs, bs[k]).contains(c),
        forall|i: int, j: int|
            0 <= i < j < parent_list(bs, c, n).len() ==> #[trigger] parent_list(bs, c, n)[i] == #[trigger] parent_list(
                bs,
                c,
                n,
            )[j] || lex_lt(parent_list(bs, c, n)[i], parent_list(bs, c, n)[j]),
    decreases n,
{
    if n > 0 {
        lemma_parent_list_upto(bs, c, n - 1);
        let kids = children_in(bs, bs[n - 1]);
        lemma_count_of(kids, c);
        let e0 = parent_list(bs, c, n - 1);
        let r = repeat(bs[n - 1].id@, count_of(kids, c));
        let e = parent_list(bs, c, n);
        assert(e == e0 + r);
        assert forall|p: Seq<char>| #[trigger] e.contains(p) <==> exists|k: int|
            0 <= k < n && bs[k].id@ == p && children_in(bs, bs[k]).contains(c) by {
            if e.contains(p) {
                let q = choose|q: int| 0 <= q < e.len() && e[q] == p;
                if q < e0.len() {
                    assert(e0[q] == p);
                    assert(e0.contains(p));
                    let k = choose|k: int| 0 <= k < n - 1 && bs[k].id@ == p && children_in(bs, bs[k]).contains(c);
                } else {
                    assert(r[q - e0.len()] == p);
                    assert(kids.contains(c));
                }
            }
            if exists|k: int| 0 <= k < n && bs[k].id@ == p && children_in(bs, bs[k]).contains(c) {
                let k = choose|k: int| 0 <= k < n && bs[k].id@ == p && children_in(bs, bs[k]).contains(c);
                if k < n - 1 {
                    assert(e0.contains(p));
                    let q = choose|q: int| 0 <= q < e0.len() && e0[q] == p;
                    assert(e[q] == p);
                } else {
                    assert(r.len() > 0);
                    assert(e[e0.len() as int] == p);
                }
            }
        }
        assert forall|i: int, j: int| 0 <= i < j < e.len() implies #[trigger] e[i] == #[trigger] e[j] || lex_lt(e[i], e[j]) by {
            if j < e0.len() {
                assert(e[i] == e0[i] && e[j] == e0[j]);
            } else if i >= e0.len() {
                assert(e[i] == r[i - e0.len()] && e[j] == r[j - e0.len()]);
            } else {
                assert(e[i] == e0[i]);
                assert(e[j] == bs[n - 1].id@);
                assert(e0.contains(e0[i]));
                let k = choose|k: int| 0 <= k < n - 1 && bs[k].id@ == e0[i] && children_in(bs, bs[k]).contains(c);
                assert(lex_lt(bs[k].id@, bs[n - 1].id@));
            }
        }
    }
}

/// The embed parent map lists `p` under `c` exactly when `p` is a block whose children include
/// `c`, once per such embed, in non-decreasing parent-id order; a child nothing embeds has an
/// empty list.
pub proof fn lemma_embed_parent_map(bs: Seq<Block>, c: Seq<char>)
    requires
        ids_sorted(bs),
    ensures
        forall|p: Seq<char>|
            #[trigger] parent_list(bs, c, bs.len() as int).contains(p) <==> index_of_id(bs, p) is Some
                && children_of(bs, p).contains(c),
        forall|i: int, j: int|
            0 <= i < j < parent_list(bs, c, bs.len() as int).len() ==> #[trigger] parent_list(bs, c, bs.len() as int)[i]
                == #[trigger] parent_list(bs, c, bs.len() as int)[j] || lex_lt(
                parent_list(bs, c, bs.len() as int)[i],
                parent_list(bs, c, bs.len() as int)[j],
            ),
        forall|p: Seq<char>|
            index_of_id(bs, p) is Some ==> #[trigger] count_of(parent_list(bs, c, bs.len() as int), p) == count_of(
                children_of(bs, p),
                c,
            ),
{
    let n = bs.len() as int;
    lemma_parent_list_upto(bs, c, n);
    assert forall|p: Seq<char>| #[trigger] parent_list(bs, c, n).contains(p) <==> index_of_id(bs, p) is Some
        && children_of(bs, p).contains(c) by {
        lemma_index_from(bs, p, 0);
        if parent_list(bs, c, n).contains(p) {
            let k = choose|k: int| 0 <= k < n && bs[k].id@ == p && children_in(bs, bs[k]).contains(c);
            lemma_index_of_sorted(bs, k);
        }
        if index_of_id(bs, p) is Some && children_of(bs, p).contains(c) {
            let k = index_of_id(bs, p)->0;
            assert(bs[k].id@ == p && children_in(bs, bs[k]).contains(c));
        }
    }
    assert forall|p: Seq<char>| index_of_id(bs, p) is Some implies #[trigger] count_of(parent_list(bs, c, n), p)
        == count_of(children_of(bs, p), c) by {
        lemma_index_from(bs, p, 0);
        let k = index_of_id(bs, p)->0;
        lemma_count_parent(bs, c, n, k);
    }
}

proof fn lemma_count_repeat(x: Seq<char>, m: nat, p: Seq<char>)
    ensures
        count_of(repeat(x, m), p) == if x == p { m } else { 0 },
    decreases m,
{
    if m > 0 {
        lemma_count_repeat(x, (m - 1) as nat, p);
        assert(repeat(x, m).drop_last() =~= repeat(x, (m - 1) as nat));
    } else {
        assert(repeat(x, m).len() == 0);
    }
}

proof fn lemma_count_concat(a: Seq<Seq<char>>, b: Seq<Seq<char>>, p: Seq<char>)
    ensures
        count_of(a + b, p) == count_of(a, p) + count_of(b, p),
    decreases b.len(),
{
    if b.len() == 0 {
        assert(a + b =~= a);
    } else {
        lemma_count_concat(a, b.drop_last(), p);
        assert((a + b).drop_last() =~= a + b.drop_last());
        assert((a + b).last() == b.last());
    }
}

proof fn lemma_count_parent(bs: Seq<Block>, c: Seq<char>, n: int, k: int)
    requires
        ids_sorted(bs),
        0 <= k < n <= bs.len(),
    ensures
        count_of(parent_list(bs, c, n), bs[k].id@) == count_of(children_in(bs, bs[k]), c),
    decreases n,
{
    let r = repeat(bs[n - 1].id@, count_of(children_in(bs, bs[n - 1]), c));
    lemma_count_concat(parent_list(bs, c, n - 1), r, bs[k].id@);
    lemma_count_repeat(bs[n - 1].id@, count_of(children_in(bs, bs[n - 1]), c), bs[k].id@);
    if k < n - 1 {
        lemma_count_parent(bs, c, n - 1, k);
        assert(lex_lt(bs[k].id@, bs[n - 1].id@));
        lemma_lex_irreflexive(bs[k].id@);
    } else {
        lemma_parent_list_upto(bs, c, n - 1);
        lemma_count_of(parent_list(bs, c, n - 1), bs[k].id@);
        if parent_list(bs, c, n - 1).contains(bs[k].id@) {
            let j = choose|j: int| 0 <= j < n - 1 && bs[j].id@ == bs[k].id@ && children_in(bs, bs[j]).contains(c);
            assert(lex_lt(bs[j].id@, bs[k].id@));
            lemma_lex_irreflexive(bs[k].id@);
        }
    }
}

// ---------------------------------------------------------------------------------------------
// Lineage is determined by the parents.
// ---------------------------------------------------------------------------------------------

proof fn lemma_reach_same(pm1: ParentMap, pm2: ParentMap, id: Seq<char>, k: nat)
    requires
        forall|c: Seq<char>| #[trigger] pm1.parents_of(c) == pm2.parents_of(c),
    ensures
        reach(pm1, id, k) == reach(pm2, id, k),
    decreases k,
{
    if k > 0 {
        lemma_reach_same(pm1, pm2, id, (k - 1) as nat);
        let r = reach(pm1, id, (k - 1) as nat);
        assert(step(pm1, r) =~= step(pm2, r)) by {
            assert forall|p: Seq<char>| step(pm1, r).contains(p) <==> step(pm2, r).contains(p) by {
                if step(pm1, r).contains(p) {
                    let x = choose|x: Seq<char>| r.contains(x) && #[trigger] pm1.parents_of(x).contains(p);
                    assert(pm2.parents_of(x).contains(p));
                }
                if step(pm2, r).contains(p) {
                    let x = choose|x: Seq<char>| r.contains(x) && #[trigger] pm2.parents_of(x).contains(p);
                    assert(pm1.parents_of(x).contains(p));
                }
            }
        }
    }
}

proof fn lemma_sorted_same_members(a: Seq<Seq<char>>, b: Seq<Seq<char>>)
    requires
        strictly_sorted(a),
        strictly_sorted(b),
        forall|x: Seq<char>| a.contains(x) <==> b.contains(x),
    ensures
        a == b,
    decreases a.len() + b.len(),
{
    if a.len() == 0 {
        if b.len() > 0 {
            assert(b.contains(b[0]));
        }
        assert(a =~= b);
    } else if b.len() == 0 {
        assert(a.contains(a[0]));
    } else {
        // The first elements are each the least of the common members.
        assert(b.contains(a[0]));
        assert(a.contains(b[0]));
        let i = choose|i: int| 0 <= i < b.len() && b[i] == a[0];
        let j = choose|j: int| 0 <= j < a.len() && a[j] == b[0];
        if i > 0 {
            assert(lex_lt(b[0], b[i]));
            if j > 0 {
                assert(lex_lt(a[0], a[j]));
                lemma_lex_transitive(a[0], b[0], a[0]);
                lemma_lex_irreflexive(a[0]);
            } else {
                lemma_lex_irreflexive(a[0]);
            }
        }
        assert(a[0] == b[0]);
        let a1 = a.drop_first();
        let b1 = b.drop_first();
        assert forall|x: Seq<char>| a1.contains(x) <==> b1.contains(x) by {
            if a1.contains(x) {
                let p = choose|p: int| 0 <= p < a1.len() && a1[p] == x;
                assert(a[p + 1] == x && lex_lt(a[0], a[p + 1]));
                assert(b.contains(x));
                let q = choose|q: int| 0 <= q < b.len() && b[q] == x;
                if q == 0 {
                    lemma_lex_irreflexive(x);
                }
                assert(b1[q - 1] == x);
            }
            if b1.contains(x) {
                let p = choose|p: int| 0 <= p < b1.len() && b1[p] == x;
                assert(b[p + 1] == x && lex_lt(b[0], b[p + 1]));
                assert(a.contains(x));
                let q = choose|q: int| 0 <= q < a.len() && a[q] == x;
                if q == 0 {
                    lemma_lex_irreflexive(x);
                }
                assert(a1[q - 1] == x);
            }
        }
        assert forall|p: int, q: int| 0 <= p < q < a1.len() implies lex_lt(#[trigger] a1[p], #[trigger] a1[q]) by {
            assert(a1[p] == a[p + 1] && a1[q] == a[q + 1]);
        }
        assert forall|p: int, q: int| 0 <= p < q < b1.len() implies lex_lt(#[trigger] b1[p], #[trigger] b1[q]) by {
            assert(b1[p] == b[p + 1] && b1[q] == b[q + 1]);
        }
        lemma_sorted_same_members(a1, b1);
        assert(a =~= seq![a[0]] + a1);
        assert(b =~= seq![b[0]] + b1);
    }
}

/// A block's lineage depends only on who embeds whom: for two parent maps that record the same
/// parents of every block, any two lineages meeting the specification agree in every field. So
/// `lineage` agrees with `lineage_with` given `embed_parent_map`, and with any other parent map
/// holding the same parents.
pub proof fn lemma_lineage_determined(bs: Seq<Block>, pm1: ParentMap, pm2: ParentMap, id: Seq<char>, r1: Lineage, r2: Lineage)
    requires
        forall|c: Seq<char>| #[trigger] pm1.parents_of(c) == pm2.parents_of(c),
        lineage_spec(bs, pm1, id, r1),
        lineage_spec(bs, pm2, id, r2),
    ensures
        r1.is_root == r2.is_root,
        r1.depth == r2.depth,
        crumbs_view(r1.parents@) == crumbs_view(r2.parents@),
        crumbs_view(r1.roots@) == crumbs_view(r2.roots@),
{
    assert(pm1.parents_of(id) == pm2.parents_of(id));
    assert forall|k: nat| #[trigger] reach(pm1, id, k) == reach(pm2, id, k) by {
        lemma_reach_same(pm1, pm2, id, k);
    }
    assert forall|k: nat| #[trigger] root_within(pm1, id, k) == root_within(pm2, id, k) by {
        assert(reach(pm1, id, k) == reach(pm2, id, k));
        if root_within(pm1, id, k) {
            let x = choose|x: Seq<char>| #[trigger] reach(pm1, id, k).contains(x) && is_top(pm1, x);
            assert(pm1.parents_of(x) == pm2.parents_of(x));
            assert(reach(pm2, id, k).contains(x) && is_top(pm2, x));
        }
        if root_within(pm2, id, k) {
            let x = choose|x: Seq<char>| #[trigger] reach(pm2, id, k).contains(x) && is_top(pm2, x);
            assert(pm1.parents_of(x) == pm2.parents_of(x));
            assert(reach(pm1, id, k).contains(x) && is_top(pm1, x));
        }
    }
    if exists|j: nat| root_within(pm1, id, j) {
        let d1 = r1.depth as nat;
        let d2 = r2.depth as nat;
        assert(root_within(pm1, id, d1) && root_within(pm1, id, d2));
        if d1 < d2 {
            assert(!root_within(pm2, id, d1));
        } else if d2 < d1 {
            assert(!root_within(pm1, id, d2));
        }
    } else {
        assert forall|j: nat| !root_within(pm2, id, j) by {
            assert(root_within(pm1, id, j) == root_within(pm2, id, j));
        }
    }
    let ids1 = choose|ids: Seq<Seq<char>>|
        #![trigger crumbs_of(bs, ids)]
        crumbs_view(r1.roots@) == crumbs_of(bs, ids) && strictly_sorted(ids) && (forall|x: Seq<char>|
            ids.contains(x) <==> reachable(pm1, id, x) && is_top(pm1, x));
    let ids2 = choose|ids: Seq<Seq<char>>|
        #![trigger crumbs_of(bs, ids)]
        crumbs_view(r2.roots@) == crumbs_of(bs, ids) && strictly_sorted(ids) && (forall|x: Seq<char>|
            ids.contains(x) <==> reachable(pm2, id, x) && is_top(pm2, x));
    assert forall|x: Seq<char>| ids1.contains(x) <==> ids2.contains(x) by {
        assert(pm1.parents_of(x) == pm2.parents_of(x));
        if reachable(pm1, id, x) {
            let k = choose|k: nat| #[trigger] reach(pm1, id, k).contains(x);
            assert(reach(pm2, id, k).contains(x));
        }
        if reachable(pm2, id, x) {
            let k = choose|k: nat| #[trigger] reach(pm2, id, k).contains(x);
            assert(reach(pm1, id, k).contains(x));
        }
    }
    lemma_sorted_same_members(ids1, ids2);
}

/// A block nothing embeds is its own lineage's root: the lineage says it is a root, at depth
/// 0, and its roots include the block itself (as the one with no upward hops).
pub proof fn lemma_top_block_lineage(bs: Seq<Block>, pm: ParentMap, id: Seq<char>, r: Lineage)
    requires
        lineage_spec(bs, pm, id, r),
        is_top(pm, id),
    ensures
        r.is_root,
        r.depth == 0,
        exists|ids: Seq<Seq<char>>|
            #![trigger crumbs_of(bs, ids)]
            crumbs_view(r.roots@) == crumbs_of(bs, ids) && ids.contains(id),
{
    assert(reach(pm, id, 0).contains(id));
    assert(root_within(pm, id, 0));
    assert(reachable(pm, id, id));
    let ids = choose|ids: Seq<Seq<char>>|
        #![trigger crumbs_of(bs, ids)]
        crumbs_view(r.roots@) == crumbs_of(bs, ids) && strictly_sorted(ids) && (forall|x: Seq<char>|
            ids.contains(x) <==> reachable(pm, id, x) && is_top(pm, x));
    assert(ids.contains(id));
    if r.depth > 0 {
        assert(!root_within(pm, id, 0nat));
    }
}

} // verus!
