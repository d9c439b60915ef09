//! The vault: the collection of block files that form the knowledge base.
//!
//! A [`Vault`] holds one [`Block`] per id, kept in ascending id order. Edges are derived from
//! each block's directives: `![[target]]` (children) and `[[target]]` (references). A target is
//! resolved to an id by exact id first, then by title, ignoring case.

use vstd::prelude::*;
use crate::block::{strs_view, targets_where, Block};
use crate::blockfile::parse_block;
use crate::id::{is_ulid, BlockId};
use crate::link::references_of;
use crate::text::{
    chars_eq, chars_lt, chars_of, copy_range, lemma_lex_asym, lemma_lex_irreflexive,
    lemma_lex_total, lemma_lex_transitive, lex_lt, str_lowercase, string_from, to_lowercase,
    trim, trim_bounds,
};

verus! {

pub open spec fn ids_view(v: Seq<BlockId>) -> Seq<Seq<char>> {
    v.map_values(|i: BlockId| i@)
}

/// Block ids ascend strictly along `bs`.
pub open spec fn ids_sorted(bs: Seq<Block>) -> bool {
    forall|i: int, j: int| 0 <= i < j < bs.len() ==> lex_lt(#[trigger] bs[i].id@, #[trigger] bs[j].id@)
}

/// The first index at or after `i` of the block with id `id`.
pub open spec fn index_from(bs: Seq<Block>, id: Seq<char>, i: int) -> Option<int>
    decreases bs.len() - i,
{
    if i < 0 || i >= bs.len() {
        None
    } else if bs[i].id@ == id {
        Some(i)
    } else {
        index_from(bs, id, i + 1)
    }
}

/// The index of the block with id `id`, if any.
pub open spec fn index_of_id(bs: Seq<Block>, id: Seq<char>) -> Option<int> {
    index_from(bs, id, 0)
}

pub proof fn lemma_index_from(bs: Seq<Block>, id: Seq<char>, i: int)
    requires
        0 <= i,
    ensures
        index_from(bs, id, i) matches Some(k) ==> i <= k < bs.len() && bs[k].id@ == id && forall|
            j: int,
        | i <= j < k ==> bs[j].id@ != id,
        index_from(bs, id, i) is None ==> forall|k: int| i <= k < bs.len() ==> bs[k].id@ != id,
        forall|k: int| i <= k < bs.len() && bs[k].id@ == id ==> index_from(bs, id, i) is Some,
    decreases bs.len() - i,
{
    if i < bs.len() && bs[i].id@ != id {
        lemma_index_from(bs, id, i + 1);
    }
}

/// In blocks kept in strictly increasing id order, looking up a block's id finds that very
/// block.
pub proof fn lemma_index_of_sorted(bs: Seq<Block>, k: int)
    requires
        ids_sorted(bs),
        0 <= k < bs.len(),
    ensures
        index_of_id(bs, bs[k].id@) == Some(k),
{
    lemma_index_from(bs, bs[k].id@, 0);
    let f = index_from(bs, bs[k].id@, 0)->0;
    if f < k {
        assert(lex_lt(bs[f].id@, bs[k].id@));
        lemma_lex_irreflexive(bs[k].id@);
    }
}

/// The lower-cased, trimmed title of a block (empty when it has none).
pub open spec fn title_key(b: Block) -> Seq<char> {
    match b.title {
        Some(x) => str_lowercase(trim(x@)),
        None => seq![],
    }
}

/// The id of the first block from `i` whose title key is non-empty and equals `key`.
pub open spec fn title_from(bs: Seq<Block>, key: Seq<char>, i: int) -> Option<Seq<char>>
    decreases bs.len() - i,
{
    if i < 0 || i >= bs.len() {
        None
    } else if title_key(bs[i]).len() > 0 && title_key(bs[i]) == key {
        Some(bs[i].id@)
    } else {
        title_from(bs, key, i + 1)
    }
}

/// Resolve a directive target: the trimmed target when it is the id of a block, else the id
/// of the first block (in id order) whose title matches it ignoring case.
pub open spec fn resolve_in(bs: Seq<Block>, target: Seq<char>) -> Option<Seq<char>> {
    let t = trim(target);
    if is_ulid(t) && index_of_id(bs, t) is Some {
        Some(t)
    } else {
        title_from(bs, str_lowercase(t), 0)
    }
}

proof fn lemma_title_from_exists(bs: Seq<Block>, key: Seq<char>, i: int)
    requires
        0 <= i,
    ensures
        title_from(bs, key, i) matches Some(x) ==> index_of_id(bs, x) is Some,
    decreases bs.len() - i,
{
    if i < bs.len() {
        if title_key(bs[i]).len() > 0 && title_key(bs[i]) == key {
            lemma_index_from(bs, bs[i].id@, 0);
        } else {
            lemma_title_from_exists(bs, key, i + 1);
        }
    }
}

/// A target resolves only to the id of a block of `bs`.
pub proof fn lemma_resolve_in_exists(bs: Seq<Block>, target: Seq<char>)
    ensures
        resolve_in(bs, target) matches Some(x) ==> index_of_id(bs, x) is Some,
{
    lemma_title_from_exists(bs, str_lowercase(trim(target)), 0);
}

/// The resolved ids of `targets`, in order, unresolvable targets dropped.
pub open spec fn resolve_all(bs: Seq<Block>, targets: Seq<Seq<char>>) -> Seq<Seq<char>>
    decreases targets.len(),
{
    if targets.len() == 0 {
        seq![]
    } else {
        resolve_all(bs, targets.drop_last()) + match resolve_in(bs, targets.last()) {
            Some(x) => seq![x],
            None => seq![],
        }
    }
}

/// The resolved children of block `b`, in document order.
pub open spec fn children_in(bs: Seq<Block>, b: Block) -> Seq<Seq<char>> {
    resolve_all(bs, targets_where(references_of(b.body@), true))
}

/// The resolved references of block `b`, in document order.
pub open spec fn refs_in(bs: Seq<Block>, b: Block) -> Seq<Seq<char>> {
    resolve_all(bs, targets_where(references_of(b.body@), false))
}

/// The resolved children of the block with id `id` (none when there is no such block).
pub open spec fn children_of(bs: Seq<Block>, id: Seq<char>) -> Seq<Seq<char>> {
    match index_of_id(bs, id) {
        Some(i) => children_in(bs, bs[i]),
        None => seq![],
    }
}

/// The resolved references of the block with id `id`.
pub open spec fn refs_of(bs: Seq<Block>, id: Seq<char>) -> Seq<Seq<char>> {
    match index_of_id(bs, id) {
        Some(i) => refs_in(bs, bs[i]),
        None => seq![],
    }
}

/// The ids of the first `n` blocks that embed `id`.
pub open spec fn embedders(bs: Seq<Block>, id: Seq<char>, n: int) -> Seq<Seq<char>>
    decreases n,
{
    if n <= 0 {
        seq![]
    } else {
        embedders(bs, id, n - 1) + if children_in(bs, bs[n - 1]).contains(id) {
            seq![bs[n - 1].id@]
        } else {
            seq![]
        }
    }
}

/// The ids of the first `n` blocks that reference `id`.
pub open spec fn referrers(bs: Seq<Block>, id: Seq<char>, n: int) -> Seq<Seq<char>>
    decreases n,
{
    if n <= 0 {
        seq![]
    } else {
        referrers(bs, id, n - 1) + if refs_in(bs, bs[n - 1]).contains(id) {
            seq![bs[n - 1].id@]
        } else {
            seq![]
        }
    }
}

/// Whether nothing in `bs` embeds `id`.
pub open spec fn is_root_in(bs: Seq<Block>, id: Seq<char>) -> bool {
    embedders(bs, id, bs.len() as int).len() == 0
}

/// The ids of the first `n` blocks that nothing embeds.
pub open spec fn roots_upto(bs: Seq<Block>, n: int) -> Seq<Seq<char>>
    decreases n,
{
    if n <= 0 {
        seq![]
    } else {
        roots_upto(bs, n - 1) + if is_root_in(bs, bs[n - 1].id@) {
            seq![bs[n - 1].id@]
        } else {
            seq![]
        }
    }
}

/// The first index at or after `i` whose id does not sort before `id`.
pub open spec fn lower_bound(bs: Seq<Block>, id: Seq<char>, i: int) -> int
    decreases bs.len() - i,
{
    if i < 0 || i >= bs.len() {
        bs.len() as int
    } else if lex_lt(bs[i].id@, id) {
        lower_bound(bs, id, i + 1)
    } else {
        i
    }
}

pub proof fn lemma_lower_bound(bs: Seq<Block>, id: Seq<char>, i: int)
    requires
        0 <= i <= bs.len(),
    ensures
        i <= lower_bound(bs, id, i) <= bs.len(),
        forall|k: int| i <= k < lower_bound(bs, id, i) ==> lex_lt(bs[k].id@, id),
        lower_bound(bs, id, i) < bs.len() ==> !lex_lt(bs[lower_bound(bs, id, i)].id@, id),
    decreases bs.len() - i,
{
    if i < bs.len() && lex_lt(bs[i].id@, id) {
        lemma_lower_bound(bs, id, i + 1);
    }
}

/// The blocks after inserting (or replacing) `b` in the ascending sequence `bs`.
pub open spec fn inserted(bs: Seq<Block>, b: Block) -> Seq<Block> {
    let p = lower_bound(bs, b.id@, 0);
    if p < bs.len() && bs[p].id@ == b.id@ {
        bs.update(p, b)
    } else {
        bs.insert(p, b)
    }
}

/// The blocks after removing the one with id `id`, if present.
pub open spec fn removed(bs: Seq<Block>, id: Seq<char>) -> Seq<Block> {
    match index_of_id(bs, id) {
        Some(i) => bs.remove(i),
        None => bs,
    }
}

/// An in-memory collection of block files with id and title resolution.
#[derive(Debug)]
pub struct Vault {
    blocks: Vec<Block>,
}

impl Vault {
    #[verifier::type_invariant]
    spec fn well_formed(self) -> bool {
        ids_sorted(self.blocks@)
    }

    /// The blocks, in ascending id order.
    pub closed spec fn entries(self) -> Seq<Block> {
        self.blocks@
    }

    /// An empty vault.
    pub fn new() -> (v: Vault)
        ensures
            v.entries() == Seq::<Block>::empty(),
    {
        Vault { blocks: Vec::new() }
    }

    /// Number of blocks.
    pub fn len(&self) -> (r: usize)
        ensures
            r == self.entries().len(),
    {
        self.blocks.len()
    }

    /// Whether the vault has no blocks.
    pub fn is_empty(&self) -> (r: bool)
        ensures
            r == (self.entries().len() == 0),
    {
        self.blocks.len() == 0
    }

    /// The index of the block with id `id`.
    fn find(&self, id: &BlockId) -> (r: Option<usize>)
        ensures
            r matches Some(i) ==> i < self.entries().len(),
            match r {
                Some(i) => index_of_id(self.entries(), id@) == Some(i as int),
                None => index_of_id(self.entries(), id@) is None,
            },
    {
        proof {
            lemma_index_from(self.blocks@, id@, 0);
        }
        let mut i: usize = 0;
        while i < self.blocks.len()
            invariant
                i <= self.blocks@.len(),
                index_from(self.blocks@, id@, 0) == index_from(self.blocks@, id@, i as int),
            decreases self.blocks.len() - i,
        {
            if self.blocks[i].id.same(id) {
                return Some(i);
            }
            i += 1;
        }
        None
    }

    /// Insert (or replace) a block from its raw file source.
    pub fn insert_source(&mut self, id: BlockId, source: &str)
        ensures
            exists|b: Block|
                #![trigger inserted(old(self).entries(), b)]
                final(self).entries() == inserted(old(self).entries(), b)
                    && crate::blockfile::is_parse_of(b, id@, source@),
    {
        let block = parse_block(id, source);
        self.insert(block);
    }

    /// Insert (or replace) a parsed block.
    pub fn insert(&mut self, block: Block)
        ensures
            final(self).entries() == inserted(old(self).entries(), block),
    {
        proof {
            use_type_invariant(&*self);
        }
        let ghost bs = self.blocks@;
        let bid = chars_of(block.id.as_str());
        proof {
            lemma_lower_bound(bs, block.id@, 0);
        }
        let mut p: usize = 0;
        while p < self.blocks.len() && id_before(&self.blocks[p], &bid)
            invariant
                p <= bs.len(),
                self.blocks@ == bs,
                bid@ == block.id@,
                lower_bound(bs, block.id@, 0) == lower_bound(bs, block.id@, p as int),
            decreases self.blocks.len() - p,
        {
            p += 1;
        }
        proof {
            lemma_lower_bound(bs, block.id@, p as int);
        }
        assert(p == lower_bound(bs, block.id@, 0));
        let same = p < self.blocks.len() && self.blocks[p].id.same(&block.id);
        proof {
            lemma_inserted_sorted(bs, block);
        }
        let mut v: Vec<Block> = Vec::new();
        std::mem::swap(&mut v, &mut self.blocks);
        if same {
            v.set(p, block);
        } else {
            v.insert(p, block);
        }
        self.blocks = v;
    }

    /// Remove a block by id. Returns whether it existed.
    pub fn remove(&mut self, id: &BlockId) -> (r: bool)
        ensures
            r == index_of_id(old(self).entries(), id@) is Some,
            final(self).entries() == removed(old(self).entries(), id@),
    {
        proof {
            use_type_invariant(&*self);
        }
        match self.find(id) {
            Some(i) => {
                proof {
                    lemma_removed_sorted(self.blocks@, i as int);
                }
                let mut v: Vec<Block> = Vec::new();
                std::mem::swap(&mut v, &mut self.blocks);
                v.remove(i);
                self.blocks = v;
                true
            },
            None => false,
        }
    }

    /// Fetch a block by id.
    pub fn block(&self, id: &BlockId) -> (r: Option<&Block>)
        ensures
            match r {
                Some(b) => index_of_id(self.entries(), id@) matches Some(i) && *b == self.entries()[i],
                None => index_of_id(self.entries(), id@) is None,
            },
    {
        match self.find(id) {
            Some(i) => Some(&self.blocks[i]),
            None => None,
        }
    }

    /// All blocks, in ascending id order.
    pub fn blocks(&self) -> (r: Vec<&Block>)
        ensures
            r@.map_values(|b: &Block| *b) == self.entries(),
            ids_sorted(self.entries()),
    {
        proof {
            use_type_invariant(self);
        }
        let mut out: Vec<&Block> = Vec::new();
        let mut i: usize = 0;
        while i < self.blocks.len()
            invariant
                i <= self.blocks@.len(),
                out@.len() == i,
                forall|k: int| 0 <= k < i ==> *(#[trigger] out@[k]) == self.blocks@[k],
            decreases self.blocks.len() - i,
        {
            out.push(&self.blocks[i]);
            i += 1;
        }
        assert(out@.map_values(|b: &Block| *b) =~= self.blocks@);
        out
    }

    /// All block ids, ascending.
    pub fn ids(&self) -> (r: Vec<BlockId>)
        ensures
            ids_view(r@) == self.entries().map_values(|b: Block| b.id@),
    {
        let mut out: Vec<BlockId> = Vec::new();
        let mut i: usize = 0;
        while i < self.blocks.len()
            invariant
                i <= self.blocks@.len(),
                out@.len() == i,
                forall|k: int| 0 <= k < i ==> (#[trigger] out@[k])@ == self.blocks@[k].id@,
            decreases self.blocks.len() - i,
        {
            out.push(self.blocks[i].id.clone());
            i += 1;
        }
        assert(ids_view(out@) =~= self.blocks@.map_values(|b: Block| b.id@));
        out
    }

    /// Resolve a directive target (an id or a title) to a concrete block id.
    pub fn resolve(&self, target: &str) -> (r: Option<BlockId>)
        ensures
            match r {
                Some(id) => resolve_in(self.entries(), target@) == Some(id@),
                None => resolve_in(self.entries(), target@) is None,
            },
    {
        let tv = chars_of(target);
        let (a, b) = trim_bounds(&tv, 0, tv.len());
        assert(tv@.subrange(0, tv@.len() as int) =~= tv@);
        let t = copy_range(&tv, a, b);
        let ts = string_from(&t);
        if let Ok(id) = BlockId::parse(ts.as_str()) {
            if self.find(&id).is_some() {
                return Some(id);
            }
        }
        let key = to_lowercase(ts.as_str());
        let kv = chars_of(key.as_str());
        assert(resolve_in(self.blocks@, target@) == title_from(self.blocks@, kv@, 0));
        let mut i: usize = 0;
        while i < self.blocks.len()
            invariant
                i <= self.blocks@.len(),
                kv@ == str_lowercase(trim(target@)),
                resolve_in(self.blocks@, target@) == title_from(self.blocks@, kv@, 0),
                title_from(self.blocks@, kv@, 0) == title_from(self.blocks@, kv@, i as int),
            decreases self.blocks.len() - i,
        {
            if let Some(title) = &self.blocks[i].title {
                let tc = chars_of(title.as_str());
                let (c, d) = trim_bounds(&tc, 0, tc.len());
                assert(tc@.subrange(0, tc@.len() as int) =~= tc@);
                let tt = copy_range(&tc, c, d);
                let tts = string_from(&tt);
                let tk = to_lowercase(tts.as_str());
                let tkv = chars_of(tk.as_str());
                if tkv.len() > 0 && chars_eq(&tkv, &kv) {
                    return Some(self.blocks[i].id.clone());
                }
            }
            i += 1;
        }
        None
    }

    /// The resolved ids of `targets`, in order.
    fn resolve_targets(&self, targets: &Vec<String>) -> (r: Vec<BlockId>)
        ensures
            ids_view(r@) == resolve_all(self.entries(), strs_view(targets@)),
    {
        let mut out: Vec<BlockId> = Vec::new();
        let mut i: usize = 0;
        while i < targets.len()
            invariant
                i <= targets@.len(),
                ids_view(out@) == resolve_all(self.blocks@, strs_view(targets@.take(i as int))),
            decreases targets.len() - i,
        {
            assert(strs_view(targets@.take(i + 1)).drop_last() =~= strs_view(
                targets@.take(i as int),
            ));
            let ghost before = ids_view(out@);
            match self.resolve(targets[i].as_str()) {
                Some(id) => {
                    out.push(id);
                    assert(ids_view(out@) =~= before + seq![id@]);
                },
                None => {
                    assert(before + Seq::<Seq<char>>::empty() =~= before);
                },
            }
            i += 1;
        }
        assert(targets@.take(i as int) =~= targets@);
        out
    }

    /// The resolved children of block `b`.
    pub fn children_of_block(&self, b: &Block) -> (r: Vec<BlockId>)
        ensures
            ids_view(r@) == children_in(self.entries(), *b),
    {
        let t = b.child_targets();
        self.resolve_targets(&t)
    }

    /// The resolved references of block `b`.
    pub fn references_of_block(&self, b: &Block) -> (r: Vec<BlockId>)
        ensures
            ids_view(r@) == refs_in(self.entries(), *b),
    {
        let t = b.reference_targets();
        self.resolve_targets(&t)
    }

    /// The resolved child ids of a block, in document order (unresolved targets dropped).
    pub fn children(&self, id: &BlockId) -> (r: Vec<BlockId>)
        ensures
            ids_view(r@) == children_of(self.entries(), id@),
    {
        match self.find(id) {
            Some(i) => self.children_of_block(&self.blocks[i]),
            None => Vec::new(),
        }
    }

    /// The resolved reference ids of a block (unresolved targets dropped).
    pub fn references(&self, id: &BlockId) -> (r: Vec<BlockId>)
        ensures
            ids_view(r@) == refs_of(self.entries(), id@),
    {
        match self.find(id) {
            Some(i) => self.references_of_block(&self.blocks[i]),
            None => Vec::new(),
        }
    }

    /// Blocks that embed (transclude) `id`, ascending.
    pub fn transcluded_by(&self, id: &BlockId) -> (r: Vec<BlockId>)
        ensures
            ids_view(r@) == embedders(self.entries(), id@, self.entries().len() as int),
    {
        let mut out: Vec<BlockId> = Vec::new();
        let mut i: usize = 0;
        while i < self.blocks.len()
            invariant
                i <= self.blocks@.len(),
                ids_view(out@) == embedders(self.blocks@, id@, i as int),
            decreases self.blocks.len() - i,
        {
            let kids = self.children_of_block(&self.blocks[i]);
            let ghost before = ids_view(out@);
            if contains_id(&kids, id) {
                out.push(self.blocks[i].id.clone());
                assert(ids_view(out@) =~= before + seq![self.blocks@[i as int].id@]);
            } else {
                assert(before + Seq::<Seq<char>>::empty() =~= before);
            }
            i += 1;
        }
        out
    }

    /// Blocks that reference (`[[...]]`) `id`, ascending.
    pub fn referenced_by(&self, id: &BlockId) -> (r: Vec<BlockId>)
        ensures
            ids_view(r@) == referrers(self.entries(), id@, self.entries().len() as int),
    {
        let mut out: Vec<BlockId> = Vec::new();
        let mut i: usize = 0;
        while i < self.blocks.len()
            invariant
                i <= self.blocks@.len(),
                ids_view(out@) == referrers(self.blocks@, id@, i as int),
            decreases self.blocks.len() - i,
        {
            let refs = self.references_of_block(&self.blocks[i]);
            let ghost before = ids_view(out@);
            if contains_id(&refs, id) {
                out.push(self.blocks[i].id.clone());
                assert(ids_view(out@) =~= before + seq![self.blocks@[i as int].id@]);
            } else {
                assert(before + Seq::<Seq<char>>::empty() =~= before);
            }
            i += 1;
        }
        out
    }

    /// Root blocks: those that nothing transcludes, ascending.
    pub fn roots(&self) -> (r: Vec<BlockId>)
        ensures
            ids_view(r@) == roots_upto(self.entries(), self.entries().len() as int),
    {
        let mut out: Vec<BlockId> = Vec::new();
        let mut i: usize = 0;
        while i < self.blocks.len()
            invariant
                i <= self.blocks@.len(),
                ids_view(out@) == roots_upto(self.blocks@, i as int),
            decreases self.blocks.len() - i,
        {
            let emb = self.transcluded_by(&self.blocks[i].id);
            let ghost before = ids_view(out@);
            if emb.len() == 0 {
                out.push(self.blocks[i].id.clone());
                assert(ids_view(out@) =~= before + seq![self.blocks@[i as int].id@]);
            } else {
                assert(before + Seq::<Seq<char>>::empty() =~= before);
            }
            i += 1;
        }
        out
    }
}

/// Whether the id of `b` sorts before `bid`.
fn id_before(b: &Block, bid: &Vec<char>) -> (r: bool)
    ensures
        r == lex_lt(b.id@, bid@),
{
    let cur = chars_of(b.id.as_str());
    chars_lt(&cur, bid)
}

/// Whether `id` occurs in `v`.
pub fn contains_id(v: &Vec<BlockId>, id: &BlockId) -> (r: bool)
    ensures
        r == ids_view(v@).contains(id@),
{
    let mut i: usize = 0;
    while i < v.len()
        invariant
            i <= v@.len(),
            forall|k: int| 0 <= k < i ==> v@[k]@ != id@,
        decreases v.len() - i,
    {
        if v[i].same(id) {
            assert(ids_view(v@)[i as int] == id@);
            return true;
        }
        i += 1;
    }
    proof {
        if ids_view(v@).contains(id@) {
            let k = choose|k: int| 0 <= k < ids_view(v@).len() && ids_view(v@)[k] == id@;
            assert(v@[k]@ == id@);
        }
    }
    false
}

proof fn lemma_inserted_sorted(bs: Seq<Block>, b: Block)
    requires
        ids_sorted(bs),
    ensures
        ids_sorted(inserted(bs, b)),
{
    lemma_lower_bound(bs, b.id@, 0);
    let p = lower_bound(bs, b.id@, 0);
    let r = inserted(bs, b);
    if p < bs.len() && bs[p].id@ == b.id@ {
        assert forall|i: int, j: int| 0 <= i < j < r.len() implies lex_lt(
            #[trigger] r[i].id@,
            #[trigger] r[j].id@,
        ) by {
            assert(r[i].id@ == bs[i].id@);
            assert(r[j].id@ == bs[j].id@);
        }
    } else {
        // Everything before `p` sorts before `b`; everything from `p` on sorts after it.
        assert forall|k: int| p <= k < bs.len() implies lex_lt(b.id@, #[trigger] bs[k].id@) by {
            assert(!lex_lt(bs[p].id@, b.id@));
            if p < bs.len() {
                if bs[p].id@ != b.id@ {
                    lemma_lex_total(bs[p].id@, b.id@);
                }
                if k > p {
                    lemma_lex_transitive(b.id@, bs[p].id@, bs[k].id@);
                }
            }
        }
        assert forall|i: int, j: int| 0 <= i < j < r.len() implies lex_lt(
            #[trigger] r[i].id@,
            #[trigger] r[j].id@,
        ) by {
            if j < p {
                assert(r[i] == bs[i] && r[j] == bs[j]);
            } else if j == p {
                assert(r[j] == b && r[i] == bs[i]);
            } else if i < p {
                assert(r[i] == bs[i] && r[j] == bs[j - 1]);
                assert(lex_lt(bs[i].id@, b.id@));
                lemma_lex_transitive(bs[i].id@, b.id@, bs[j - 1].id@);
            } else if i == p {
                assert(r[i] == b && r[j] == bs[j - 1]);
            } else {
                assert(r[i] == bs[i - 1] && r[j] == bs[j - 1]);
            }
        }
    }
}

proof fn lemma_removed_sorted(bs: Seq<Block>, k: int)
    requires
        ids_sorted(bs),
        0 <= k < bs.len(),
    ensures
        ids_sorted(bs.remove(k)),
{
    let r = bs.remove(k);
    assert forall|i: int, j: int| 0 <= i < j < r.len() implies lex_lt(
        #[trigger] r[i].id@,
        #[trigger] r[j].id@,
    ) by {
        let i2 = if i < k {
            i
        } else {
            i + 1
        };
        let j2 = if j < k {
            j
        } else {
            j + 1
        };
        assert(r[i] == bs[i2] && r[j] == bs[j2]);
    }
}

/// The on-disk path of a block file, relative to the vault root: `blocks/<id>.md`.
pub fn block_rel_path(id: &BlockId) -> (r: String)
    ensures
        r@ == "blocks/"@ + id@ + ".md"@,
{
    let mut out: Vec<char> = Vec::new();
    crate::text::push_str(&mut out, "blocks/");
    crate::text::push_str(&mut out, id.as_str());
    crate::text::push_str(&mut out, ".md");
    string_from(&out)
}

// ---------------------------------------------------------------------------------------------
// Loading, and caller-supplied paths.
// ---------------------------------------------------------------------------------------------

/// The blocks `bs` after inserting each of `blocks` in order.
pub open spec fn inserted_all(bs: Seq<Block>, blocks: Seq<Block>) -> Seq<Block>
    decreases blocks.len(),
{
    if blocks.len() == 0 {
        bs
    } else {
        inserted(inserted_all(bs, blocks.drop_last()), blocks.last())
    }
}

impl Vault {
    /// A vault holding the block files read from a vault directory: each `(id, source)` is
    /// parsed and inserted in order (a later file for the same id replaces an earlier one).
    pub fn from_dir(files: &[(BlockId, String)]) -> (r: Vault)
        ensures
            exists|blocks: Seq<Block>|
                #![trigger inserted_all(seq![], blocks)]
                blocks.len() == files@.len() && (forall|k: int|
                    0 <= k < files@.len() ==> crate::blockfile::is_parse_of(
                        #[trigger] blocks[k],
                        files@[k].0@,
                        files@[k].1@,
                    )) && r.entries() == inserted_all(seq![], blocks),
    {
        let mut v = Vault::new();
        let ghost mut blocks: Seq<Block> = seq![];
        let mut i: usize = 0;
        assert(v.entries() =~= inserted_all(seq![], blocks));
        while i < files.len()
            invariant
                i <= files@.len(),
                blocks.len() == i,
                forall|k: int|
                    0 <= k < i ==> crate::blockfile::is_parse_of(
                        #[trigger] blocks[k],
                        files@[k].0@,
                        files@[k].1@,
                    ),
                v.entries() == inserted_all(seq![], blocks),
            decreases files.len() - i,
        {
            let (id, source) = &files[i];
            let ghost before = v.entries();
            v.insert_source(id.clone(), source.as_str());
            proof {
                let b = choose|b: Block|
                    #![trigger inserted(before, b)]
                    v.entries() == inserted(before, b) && crate::blockfile::is_parse_of(b, id@, source@);
                let nb = blocks.push(b);
                assert(nb.drop_last() =~= blocks);
                blocks = nb;
            }
            i += 1;
        }
        v
    }
}

/// The index of the last `c` in `s[..n]`, or `-1`.
pub open spec fn last_index(s: Seq<char>, c: char, n: int) -> int
    decreases n,
{
    if n <= 0 {
        -1
    } else if s[n - 1] == c {
        n - 1
    } else {
        last_index(s, c, n - 1)
    }
}

proof fn lemma_last_index(s: Seq<char>, c: char, n: int)
    requires
        0 <= n <= s.len(),
    ensures
        -1 <= last_index(s, c, n) < n,
        last_index(s, c, n) >= 0 ==> s[last_index(s, c, n)] == c,
        forall|k: int| last_index(s, c, n) < k < n ==> s[k] != c,
    decreases n,
{
    if n > 0 && s[n - 1] != c {
        lemma_last_index(s, c, n - 1);
    }
}

fn last_index_exec(s: &Vec<char>, c: char) -> (r: Option<usize>)
    ensures
        match r {
            Some(i) => last_index(s@, c, s@.len() as int) == i as int && i < s@.len(),
            None => last_index(s@, c, s@.len() as int) == -1,
        },
{
    let mut i: usize = s.len();
    while i > 0
        invariant
            i <= s@.len(),
            last_index(s@, c, s@.len() as int) == last_index(s@, c, i as int),
        decreases i,
    {
        if s[i - 1] == c {
            return Some(i - 1);
        }
        i -= 1;
    }
    None
}

/// The text after the last `c` of `s` (all of `s` when there is none).
pub open spec fn after_last(s: Seq<char>, c: char) -> Seq<char> {
    s.skip(last_index(s, c, s.len() as int) + 1)
}

/// A character kept in an asset file name.
pub open spec fn asset_char(c: char) -> bool {
    crate::text::is_ascii_alnum(c) || c == '.' || c == '_' || c == '-'
}

/// `s` with every character outside `[A-Za-z0-9._-]` replaced by `-`.
pub open spec fn asset_mapped(s: Seq<char>) -> Seq<char> {
    s.map_values(|c: char| if asset_char(c) { c } else { '-' })
}

/// A character trimmed from the ends of a cleaned name.
pub open spec fn edge_char(c: char) -> bool {
    c == '.' || c == '-' || c == ' '
}

pub open spec fn trim_edge_start(s: Seq<char>) -> Seq<char>
    decreases s.len(),
{
    if s.len() > 0 && edge_char(s[0]) {
        trim_edge_start(s.drop_first())
    } else {
        s
    }
}

pub open spec fn trim_edge_end(s: Seq<char>) -> Seq<char>
    decreases s.len(),
{
    if s.len() > 0 && edge_char(s.last()) {
        trim_edge_end(s.drop_last())
    } else {
        s
    }
}

/// A name reduced to `[A-Za-z0-9._-]` without leading or trailing dots and dashes.
pub open spec fn asset_clean(s: Seq<char>) -> Seq<char> {
    trim_edge_end(trim_edge_start(asset_mapped(s)))
}

/// The last path component of `name` (either separator), trimmed.
pub open spec fn asset_base(name: Seq<char>) -> Seq<char> {
    trim(after_last(crate::text::replace_all(name, seq!['\\'], seq!['/']), '/'))
}

/// The safe file name made of `name`: its last component's cleaned stem (or `file`), and its
/// cleaned extension when there is one.
pub open spec fn sanitized_name(name: Seq<char>) -> Seq<char> {
    let base = asset_base(name);
    let d = last_index(base, '.', base.len() as int);
    let split = d > 0 && d + 1 < base.len();
    let stem = if split {
        base.take(d)
    } else {
        base
    };
    let st = if asset_clean(stem).len() == 0 {
        "file"@
    } else {
        asset_clean(stem)
    };
    if split && asset_clean(base.skip(d + 1)).len() > 0 {
        st + seq!['.'] + asset_clean(base.skip(d + 1))
    } else {
        st
    }
}

/// The characters a cleaned name is made of, and that it neither starts nor ends with a dot.
proof fn lemma_asset_clean(s: Seq<char>)
    ensures
        forall|k: int| 0 <= k < asset_clean(s).len() ==> asset_char(#[trigger] asset_clean(s)[k]),
        asset_clean(s).len() > 0 ==> asset_clean(s)[0] != '.',
{
    let m = asset_mapped(s);
    assert forall|k: int| 0 <= k < m.len() implies asset_char(#[trigger] m[k]) by {}
    lemma_trim_edge_start(m);
    lemma_trim_edge_end(trim_edge_start(m));
}

proof fn lemma_trim_edge_start(s: Seq<char>)
    requires
        forall|k: int| 0 <= k < s.len() ==> asset_char(#[trigger] s[k]),
    ensures
        forall|k: int| 0 <= k < trim_edge_start(s).len() ==> asset_char(#[trigger] trim_edge_start(s)[k]),
        trim_edge_start(s).len() > 0 ==> !edge_char(trim_edge_start(s)[0]),
    decreases s.len(),
{
    if s.len() > 0 && edge_char(s[0]) {
        assert forall|k: int| 0 <= k < s.drop_first().len() implies asset_char(#[trigger] s.drop_first()[k]) by {
            assert(s.drop_first()[k] == s[k + 1]);
        }
        lemma_trim_edge_start(s.drop_first());
    }
}

proof fn lemma_trim_edge_end(s: Seq<char>)
    requires
        forall|k: int| 0 <= k < s.len() ==> asset_char(#[trigger] s[k]),
        s.len() > 0 ==> !edge_char(s[0]),
    ensures
        forall|k: int| 0 <= k < trim_edge_end(s).len() ==> asset_char(#[trigger] trim_edge_end(s)[k]),
        trim_edge_end(s).len() > 0 ==> !edge_char(trim_edge_end(s)[0]),
    decreases s.len(),
{
    if s.len() > 0 && edge_char(s.last()) {
        assert forall|k: int| 0 <= k < s.drop_last().len() implies asset_char(#[trigger] s.drop_last()[k]) by {
            assert(s.drop_last()[k] == s[k]);
        }
        lemma_trim_edge_end(s.drop_last());
    }
}

fn asset_clean_exec(s: &Vec<char>, lo: usize, hi: usize) -> (r: Vec<char>)
    requires
        lo <= hi <= s@.len(),
    ensures
        r@ == asset_clean(s@.subrange(lo as int, hi as int)),
{
    let mut m: Vec<char> = Vec::new();
    let mut i: usize = lo;
    while i < hi
        invariant
            lo <= i <= hi <= s@.len(),
            m@ == asset_mapped(s@.subrange(lo as int, i as int)),
        decreases hi - i,
    {
        let c = s[i];
        let keep = ('0' <= c && c <= '9') || ('a' <= c && c <= 'z') || ('A' <= c && c <= 'Z') || c
            == '.' || c == '_' || c == '-';
        if keep {
            m.push(c);
        } else {
            m.push('-');
        }
        assert(m@ =~= asset_mapped(s@.subrange(lo as int, i + 1)));
        i += 1;
    }
    let mut a: usize = 0;
    assert(m@.subrange(0, m@.len() as int) =~= m@);
    while a < m.len() && (m[a] == '.' || m[a] == '-' || m[a] == ' ')
        invariant
            a <= m@.len(),
            trim_edge_start(m@) == trim_edge_start(m@.subrange(a as int, m@.len() as int)),
        decreases m.len() - a,
    {
        assert(m@.subrange(a as int, m@.len() as int).drop_first() =~= m@.subrange(a + 1, m@.len() as int));
        a += 1;
    }
    assert(trim_edge_start(m@.subrange(a as int, m@.len() as int)) == m@.subrange(a as int, m@.len() as int));
    let mut b: usize = m.len();
    while b > a && (m[b - 1] == '.' || m[b - 1] == '-' || m[b - 1] == ' ')
        invariant
            a <= b <= m@.len(),
            trim_edge_end(trim_edge_start(m@)) == trim_edge_end(m@.subrange(a as int, b as int)),
        decreases b,
    {
        assert(m@.subrange(a as int, b as int).drop_last() =~= m@.subrange(a as int, b - 1));
        b -= 1;
    }
    copy_range(&m, a, b)
}

/// Reduce a caller-supplied asset file name to one safe `stem.ext` component: only the last
/// path component is kept, characters outside `[A-Za-z0-9._-]` become `-`, leading and trailing
/// dots and dashes are trimmed, one extension is kept, and an empty stem becomes `file`. The
/// result is never empty, never `..`, and holds no `/`, `\` or `:`, so it cannot escape the
/// directory it is joined under.
pub fn sanitize_asset_filename(name: &str) -> (r: String)
    ensures
        r@ == sanitized_name(name@),
        r@.len() > 0,
        r@[0] != '.',
        r@ != ".."@,
        forall|k: int| 0 <= k < r@.len() ==> #[trigger] r@[k] != '/' && r@[k] != '\\' && r@[k] != ':',
{
    let n = chars_of(name);
    let mut bs: Vec<char> = Vec::new();
    bs.push('\\');
    let mut sl: Vec<char> = Vec::new();
    sl.push('/');
    let norm = crate::text::replace_chars(&n, &bs, &sl);
    assert(bs@ =~= seq!['\\']);
    assert(sl@ =~= seq!['/']);
    let li = last_index_exec(&norm, '/');
    let nl = norm.len();
    let start: usize = match li {
        Some(i) => {
            assert(i < nl);
            i + 1
        },
        None => 0,
    };
    proof {
        lemma_last_index(norm@, '/', norm@.len() as int);
    }
    let (a, b) = trim_bounds(&norm, start, norm.len());
    let base = copy_range(&norm, a, b);
    assert(norm@.subrange(start as int, norm@.len() as int) =~= after_last(norm@, '/'));
    assert(base@ == asset_base(name@));
    let d = last_index_exec(&base, '.');
    proof {
        lemma_last_index(base@, '.', base@.len() as int);
    }
    let split = match d {
        Some(d) => d > 0 && d + 1 < base.len(),
        None => false,
    };
    let stem_end = match d {
        Some(d) => if split { d } else { base.len() },
        None => base.len(),
    };
    let stem = asset_clean_exec(&base, 0, stem_end);
    let mut out: Vec<char> = Vec::new();
    if stem.len() == 0 {
        crate::text::push_str(&mut out, "file");
    } else {
        crate::text::push_all(&mut out, &stem);
    }
    proof {
        reveal_strlit("file");
        if split {
            assert(base@.subrange(0, stem_end as int) =~= base@.take(stem_end as int));
        } else {
            assert(base@.subrange(0, stem_end as int) =~= base@);
        }
    }
    if split {
        let dd = stem_end;
        let ext = asset_clean_exec(&base, dd + 1, base.len());
        assert(base@.subrange(dd + 1, base@.len() as int) =~= base@.skip(dd + 1));
        if ext.len() > 0 {
            out.push('.');
            crate::text::push_all(&mut out, &ext);
        }
    }
    proof {
        lemma_asset_clean(if split { base@.take(stem_end as int) } else { base@ });
        if split {
            lemma_asset_clean(base@.skip(stem_end + 1));
        }
        reveal_strlit("..");
        assert(out@ == sanitized_name(name@));
        assert forall|k: int| 0 <= k < out@.len() implies #[trigger] out@[k] != '/' && out@[k] != '\\'
            && out@[k] != ':' by {}
    }
    string_from(&out)
}

/// The text `format!("{:?}", s)` gives: `s` quoted, with its special characters escaped.
pub uninterp spec fn debug_text(s: Seq<char>) -> Seq<char>;

/// Formats with `str`'s `Debug` implementation. Claimed: the result is the named quoting of the
/// argument.
#[verifier::external_body]
pub(crate) fn debug_quoted(s: &str) -> (r: String)
    ensures
        r@ == debug_text(s@),
{
    format!("{s:?}")
}

/// The kept components of a relative path, or the error for the first bad one: empty and `.`
/// components are dropped, `..` and a component holding `:` are refused.
pub open spec fn rel_components(parts: Seq<Seq<char>>, rel: Seq<char>) -> Result<Seq<Seq<char>>, Seq<char>>
    decreases parts.len(),
{
    if parts.len() == 0 {
        Ok(seq![])
    } else {
        let c = parts[0];
        if c.len() == 0 || c == "."@ {
            rel_components(parts.drop_first(), rel)
        } else if c == ".."@ {
            Err("path traversal is not allowed: "@ + rel)
        } else if c.contains(':') {
            Err("invalid path component "@ + debug_text(c) + " in "@ + rel)
        } else {
            match rel_components(parts.drop_first(), rel) {
                Ok(cs) => Ok(seq![c] + cs),
                Err(e) => Err(e),
            }
        }
    }
}

/// `r` with `cs` in front of its components (an error stays).
pub open spec fn prefixed(cs: Seq<Seq<char>>, r: Result<Seq<Seq<char>>, Seq<char>>) -> Result<Seq<Seq<char>>, Seq<char>> {
    match r {
        Ok(x) => Ok(cs + x),
        Err(e) => Err(e),
    }
}

/// The cleaned vault-relative path for `rel`, or why it is refused.
pub open spec fn safe_rel(rel: Seq<char>) -> Result<Seq<char>, Seq<char>> {
    let t = trim(crate::text::replace_all(rel, seq!['\\'], seq!['/']));
    if t.len() == 0 {
        Err("empty path"@)
    } else if t[0] == '/' {
        Err("absolute paths are not allowed: "@ + rel)
    } else {
        match rel_components(crate::render::split_on(t, '/'), rel) {
            Err(e) => Err(e),
            Ok(cs) => if cs.len() == 0 {
                Err("path resolves to the vault root: "@ + rel)
            } else {
                Ok(crate::view::join_with(cs, "/"@))
            },
        }
    }
}

fn message(a: &str, b: &str) -> (r: String)
    ensures
        r@ == a@ + b@,
{
    let mut v: Vec<char> = Vec::new();
    crate::text::push_str(&mut v, a);
    crate::text::push_str(&mut v, b);
    string_from(&v)
}

/// Validate and normalize a caller-supplied vault-relative path so it cannot escape the vault:
/// `\` counts as `/`, surrounding whitespace is trimmed, empty and `.` components are dropped,
/// and an empty path, an absolute path, a `..` component, a component holding `:`, or a path
/// naming the vault root itself is refused. The cleaned path uses `/` separators.
pub fn safe_relative_path(rel: &str) -> (r: Result<String, String>)
    ensures
        match safe_rel(rel@) {
            Ok(p) => r matches Ok(s) && s@ == p,
            Err(m) => r matches Err(e) && e@ == m,
        },
{
    let n = chars_of(rel);
    let mut bs: Vec<char> = Vec::new();
    bs.push('\\');
    let mut sl: Vec<char> = Vec::new();
    sl.push('/');
    let norm = crate::text::replace_chars(&n, &bs, &sl);
    assert(bs@ =~= seq!['\\']);
    assert(sl@ =~= seq!['/']);
    let (a, b) = trim_bounds(&norm, 0, norm.len());
    assert(norm@.subrange(0, norm@.len() as int) =~= norm@);
    let t = copy_range(&norm, a, b);
    if t.len() == 0 {
        let mut v: Vec<char> = Vec::new();
        crate::text::push_str(&mut v, "empty path");
        return Err(string_from(&v));
    }
    if t[0] == '/' {
        return Err(message("absolute paths are not allowed: ", rel));
    }
    let parts = crate::render::split_exec(&t, '/');
    let ghost ps = crate::render::split_on(t@, '/');
    let mut clean: Vec<String> = Vec::new();
    let mut i: usize = 0;
    assert(ps.skip(0) =~= ps);
    assert(strs_view(clean@) =~= Seq::<Seq<char>>::empty());
    assert(prefixed(seq![], rel_components(ps, rel@)) == rel_components(ps, rel@)) by {
        match rel_components(ps, rel@) {
            Ok(x) => assert(Seq::<Seq<char>>::empty() + x =~= x),
            Err(_) => {},
        }
    }
    proof {
        reveal_strlit(".");
        reveal_strlit("..");
    }
    while i < parts.len()
        invariant
            i <= parts@.len(),
            crate::render::parts_view(parts@) == ps,
            ps == crate::render::split_on(t@, '/'),
            t@ == trim(crate::text::replace_all(rel@, seq!['\\'], seq!['/'])),
            t@.len() > 0 && t@[0] != '/',
            rel_components(ps, rel@) == prefixed(strs_view(clean@), rel_components(ps.skip(i as int), rel@)),
        decreases parts.len() - i,
    {
        let c = &parts[i];
        let ghost rest = ps.skip(i as int);
        assert(rest[0] == c@);
        assert(rest.drop_first() =~= ps.skip(i + 1));
        let cs = string_from(c);
        if c.len() == 0 || crate::text::str_eq(cs.as_str(), ".") {
        } else if crate::text::str_eq(cs.as_str(), "..") {
            assert(rel_components(rest, rel@) == Err::<Seq<Seq<char>>, Seq<char>>(
                "path traversal is not allowed: "@ + rel@,
            ));
            return Err(message("path traversal is not allowed: ", rel));
        } else if crate::text::contains_char(c, ':') {
            let d = debug_quoted(cs.as_str());
            let mut v: Vec<char> = Vec::new();
            crate::text::push_str(&mut v, "invalid path component ");
            crate::text::push_str(&mut v, d.as_str());
            crate::text::push_str(&mut v, " in ");
            crate::text::push_str(&mut v, rel);
            assert(rel_components(rest, rel@) == Err::<Seq<Seq<char>>, Seq<char>>(v@));
            return Err(string_from(&v));
        } else {
            let ghost before = strs_view(clean@);
            clean.push(cs);
            proof {
                assert(strs_view(clean@) =~= before.push(c@));
                match rel_components(ps.skip(i + 1), rel@) {
                    Ok(x) => assert(before + (seq![c@] + x) =~= before.push(c@) + x),
                    Err(_) => {},
                }
            }
        }
        i += 1;
    }
    assert(ps.skip(i as int) =~= Seq::<Seq<char>>::empty());
    assert(strs_view(clean@) + Seq::<Seq<char>>::empty() =~= strs_view(clean@));
    if clean.len() == 0 {
        return Err(message("path resolves to the vault root: ", rel));
    }
    let joined = crate::view::join_strings(&clean, "/");
    Ok(string_from(&joined))
}

// ---------------------------------------------------------------------------------------------
// Graph laws.
// ---------------------------------------------------------------------------------------------

proof fn lemma_embedders_upto(bs: Seq<Block>, id: Seq<char>, n: int)
    requires
        ids_sorted(bs),
        0 <= n <= bs.len(),
    ensures
        forall|x: Seq<char>|
            #[trigger] embedders(bs, id, n).contains(x) <==> exists|k: int|
                0 <= k < n && bs[k].id@ == x && children_in(bs, bs[k]).contains(id),
        forall|i: int, j: int|
            0 <= i < j < embedders(bs, id, n).len() ==> lex_lt(
                #[trigger] embedders(bs, id, n)[i],
                #[trigger] embedders(bs, id, n)[j],
            ),
    decreases n,
{
    if n > 0 {
        lemma_embedders_upto(bs, id, n - 1);
        let e0 = embedders(bs, id, n - 1);
        let e = embedders(bs, id, n);
        let hit = children_in(bs, bs[n - 1]).contains(id);
        assert forall|x: Seq<char>| #[trigger] e.contains(x) <==> exists|k: int|
            0 <= k < n && bs[k].id@ == x && children_in(bs, bs[k]).contains(id) by {
            if e.contains(x) {
                let p = choose|p: int| 0 <= p < e.len() && e[p] == x;
                if p < e0.len() {
                    assert(e0[p] == x);
                    assert(e0.contains(x));
                    let k = choose|k: int| 0 <= k < n - 1 && bs[k].id@ == x && children_in(bs, bs[k]).contains(id);
                } else {
                    assert(hit && x == bs[n - 1].id@);
                }
            }
            if exists|k: int| 0 <= k < n && bs[k].id@ == x && children_in(bs, bs[k]).contains(id) {
                let k = choose|k: int| 0 <= k < n && bs[k].id@ == x && children_in(bs, bs[k]).contains(id);
                if k < n - 1 {
                    assert(e0.contains(x));
                    let p = choose|p: int| 0 <= p < e0.len() && e0[p] == x;
                    assert(e[p] == x);
                } else {
                    assert(e[e0.len() as int] == x);
                }
            }
        }
        assert forall|i: int, j: int| 0 <= i < j < e.len() implies lex_lt(#[trigger] e[i], #[trigger] e[j]) by {
            if j < e0.len() {
                assert(e[i] == e0[i] && e[j] == e0[j]);
            } else {
                assert(e[i] == e0[i]);
                assert(e0.contains(e0[i]));
                let k = choose|k: int| 0 <= k < n - 1 && bs[k].id@ == e0[i] && children_in(bs, bs[k]).contains(id);
                assert(lex_lt(bs[k].id@, bs[n - 1].id@));
            }
        }
    }
}

proof fn lemma_roots_upto(bs: Seq<Block>, n: int)
    requires
        ids_sorted(bs),
        0 <= n <= bs.len(),
    ensures
        forall|x: Seq<char>|
            #[trigger] roots_upto(bs, n).contains(x) <==> exists|k: int|
                0 <= k < n && bs[k].id@ == x && is_root_in(bs, x),
        forall|i: int, j: int|
            0 <= i < j < roots_upto(bs, n).len() ==> lex_lt(
                #[trigger] roots_upto(bs, n)[i],
                #[trigger] roots_upto(bs, n)[j],
            ),
    decreases n,
{
    if n > 0 {
        lemma_roots_upto(bs, n - 1);
        let e0 = roots_upto(bs, n - 1);
        let e = roots_upto(bs, n);
        let hit = is_root_in(bs, bs[n - 1].id@);
        assert forall|x: Seq<char>| #[trigger] e.contains(x) <==> exists|k: int|
            0 <= k < n && bs[k].id@ == x && is_root_in(bs, x) by {
            if e.contains(x) {
                let p = choose|p: int| 0 <= p < e.len() && e[p] == x;
                if p < e0.len() {
                    assert(e0[p] == x);
                    assert(e0.contains(x));
                    let k = choose|k: int| 0 <= k < n - 1 && bs[k].id@ == x && is_root_in(bs, x);
                } else {
                    assert(hit && x == bs[n - 1].id@);
                }
            }
            if exists|k: int| 0 <= k < n && bs[k].id@ == x && is_root_in(bs, x) {
                let k = choose|k: int| 0 <= k < n && bs[k].id@ == x && is_root_in(bs, x);
                if k < n - 1 {
                    assert(e0.contains(x));
                    let p = choose|p: int| 0 <= p < e0.len() && e0[p] == x;
                    assert(e[p] == x);
                } else {
                    assert(e[e0.len() as int] == x);
                }
            }
        }
        assert forall|i: int, j: int| 0 <= i < j < e.len() implies lex_lt(#[trigger] e[i], #[trigger] e[j]) by {
            if j < e0.len() {
                assert(e[i] == e0[i] && e[j] == e0[j]);
            } else {
                assert(e[i] == e0[i]);
                assert(e0.contains(e0[i]));
                let k = choose|k: int| 0 <= k < n - 1 && bs[k].id@ == e0[i] && is_root_in(bs, e0[i]);
                assert(lex_lt(bs[k].id@, bs[n - 1].id@));
            }
        }
    }
}

/// The blocks embedding `id` (what `transcluded_by` returns) come in strictly ascending id
/// order, and a block is among them exactly when its children include `id`.
pub proof fn lemma_transcluded_by(bs: Seq<Block>, id: Seq<char>)
    requires
        ids_sorted(bs),
    ensures
        forall|i: int, j: int|
            0 <= i < j < embedders(bs, id, bs.len() as int).len() ==> lex_lt(
                #[trigger] embedders(bs, id, bs.len() as int)[i],
                #[trigger] embedders(bs, id, bs.len() as int)[j],
            ),
        forall|x: Seq<char>|
            #[trigger] embedders(bs, id, bs.len() as int).contains(x) <==> index_of_id(bs, x) is Some
                && children_of(bs, x).contains(id),
{
    let n = bs.len() as int;
    lemma_embedders_upto(bs, id, n);
    assert forall|x: Seq<char>| #[trigger] embedders(bs, id, n).contains(x) <==> index_of_id(bs, x) is Some
        && children_of(bs, x).contains(id) by {
        lemma_index_from(bs, x, 0);
        if embedders(bs, id, n).contains(x) {
            let k = choose|k: int| 0 <= k < n && bs[k].id@ == x && children_in(bs, bs[k]).contains(id);
            lemma_index_of_sorted(bs, k);
        }
        if index_of_id(bs, x) is Some && children_of(bs, x).contains(id) {
            let k = index_of_id(bs, x)->0;
            assert(bs[k].id@ == x && children_in(bs, bs[k]).contains(id));
        }
    }
}

/// The roots (what `roots` returns) come in strictly ascending id order and are exactly the
/// ids of blocks that no block embeds.
pub proof fn lemma_roots(bs: Seq<Block>)
    requires
        ids_sorted(bs),
    ensures
        forall|i: int, j: int|
            0 <= i < j < roots_upto(bs, bs.len() as int).len() ==> lex_lt(
                #[trigger] roots_upto(bs, bs.len() as int)[i],
                #[trigger] roots_upto(bs, bs.len() as int)[j],
            ),
        forall|x: Seq<char>|
            #[trigger] roots_upto(bs, bs.len() as int).contains(x) <==> index_of_id(bs, x) is Some
                && embedders(bs, x, bs.len() as int).len() == 0,
{
    let n = bs.len() as int;
    lemma_roots_upto(bs, n);
    assert forall|x: Seq<char>| #[trigger] roots_upto(bs, n).contains(x) <==> index_of_id(bs, x) is Some
        && embedders(bs, x, n).len() == 0 by {
        lemma_index_from(bs, x, 0);
        if roots_upto(bs, n).contains(x) {
            let k = choose|k: int| 0 <= k < n && bs[k].id@ == x && is_root_in(bs, x);
            lemma_index_of_sorted(bs, k);
        }
        if index_of_id(bs, x) is Some && embedders(bs, x, n).len() == 0 {
            let k = index_of_id(bs, x)->0;
            assert(bs[k].id@ == x && is_root_in(bs, x));
        }
    }
}

/// An imported asset always gets a safe file name: not empty, not hidden (it does not start
/// with a dot), and made only of ASCII letters, digits, `.`, `_` and `-`, so it can hold no
/// path separator and cannot leave the assets directory.
pub proof fn lemma_sanitized_name_is_safe(name: Seq<char>)
    ensures
        sanitized_name(name).len() > 0,
        sanitized_name(name)[0] != '.',
        forall|k: int|
            0 <= k < sanitized_name(name).len() ==> {
                let c = #[trigger] sanitized_name(name)[k];
                ('0' <= c && c <= '9') || ('a' <= c && c <= 'z') || ('A' <= c && c <= 'Z') || c == '.'
                    || c == '_' || c == '-'
            },
{
    reveal_strlit("file");
    let base = asset_base(name);
    let d = last_index(base, '.', base.len() as int);
    let split = d > 0 && d + 1 < base.len();
    let stem = if split { base.take(d) } else { base };
    lemma_asset_clean(stem);
    let st = if asset_clean(stem).len() == 0 { "file"@ } else { asset_clean(stem) };
    assert(st.len() > 0 && st[0] != '.');
    assert forall|k: int| 0 <= k < st.len() implies asset_char(#[trigger] st[k]) by {}
    let r = sanitized_name(name);
    if split && asset_clean(base.skip(d + 1)).len() > 0 {
        let ext = asset_clean(base.skip(d + 1));
        lemma_asset_clean(base.skip(d + 1));
        assert(r == st + seq!['.'] + ext);
        assert forall|k: int| 0 <= k < r.len() implies asset_char(#[trigger] r[k]) by {
            if k < st.len() {
                assert(r[k] == st[k]);
            } else if k > st.len() {
                assert(r[k] == ext[k - st.len() - 1]);
            }
        }
        assert(r[0] == st[0]);
    } else {
        assert(r == st);
    }
    assert forall|k: int| 0 <= k < r.len() implies {
        let c = #[trigger] r[k];
        ('0' <= c && c <= '9') || ('a' <= c && c <= 'z') || ('A' <= c && c <= 'Z') || c == '.'
            || c == '_' || c == '-'
    } by {
        assert(asset_char(r[k]));
    }
}

} // verus!
