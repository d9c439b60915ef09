//! Request identity and authorization, and the cycle-safe decision behind linking two blocks.
//! Every service call carries a [`RequestContext`]; writes are gated through
//! [`RequestContext::authorize`].

use vstd::prelude::*;
use crate::id::BlockId;
use crate::index::{transclusion_reaches, transcludes_to, IndexError, LinkOutcome};
use crate::text::{push_str, string_from};
use crate::vault::{index_of_id, Vault};
use crate::index::{block_links, links_of, rows_view, LinkRow};
use crate::text::{chars_of, copy_range, trim, trim_bounds};
use vstd::utf8::{decode_utf8, encode_utf8, is_char_boundary};

verus! {

/// Who is making a request.
#[derive(Debug, Clone, PartialEq, Eq)]
pub enum Caller {
    /// A local, fully trusted caller (same machine, local socket or in-process).
    Local,
    /// A network caller that presented a valid shared token (opaque principal).
    Authenticated(String),
    /// A remote caller that has not authenticated.
    Remote(String),
}

/// A capability a request needs.
#[derive(Debug, Clone, Copy, PartialEq, Eq, Structural)]
pub enum Capability {
    /// Read-only access.
    Read,
    /// Mutating access.
    Write,
}

/// Per-request context: the caller's identity.
#[derive(Debug, Clone)]
pub struct RequestContext {
    /// The caller.
    pub caller: Caller,
}

/// The message refusing an unauthenticated remote caller.
pub open spec fn unauthorized_message(id: Seq<char>) -> Seq<char> {
    "unauthorized: remote caller "@ + id + " (authenticate with a token first)"@
}

impl RequestContext {
    /// A local, trusted context.
    pub fn local() -> (r: RequestContext)
        ensures
            r.caller is Local,
    {
        RequestContext { caller: Caller::Local }
    }

    /// A remote context with an opaque principal id.
    pub fn remote(id: &str) -> (r: RequestContext)
        ensures
            r.caller matches Caller::Remote(p) && p@ == id@,
    {
        RequestContext { caller: Caller::Remote(id.to_owned()) }
    }

    /// A network context that has presented a valid shared token.
    pub fn authenticated(id: &str) -> (r: RequestContext)
        ensures
            r.caller matches Caller::Authenticated(p) && p@ == id@,
    {
        RequestContext { caller: Caller::Authenticated(id.to_owned()) }
    }

    /// Authorize `cap` for this caller: local and token-authenticated callers may do anything;
    /// unauthenticated remote callers are refused, whatever they ask.
    pub fn authorize(&self, cap: Capability) -> (r: Result<(), IndexError>)
        ensures
            match self.caller {
                Caller::Remote(id) => r matches Err(e) && e.0@ == unauthorized_message(id@),
                _ => r is Ok,
            },
    {
        match &self.caller {
            Caller::Local => Ok(()),
            Caller::Authenticated(_) => Ok(()),
            Caller::Remote(id) => {
                let mut m: Vec<char> = Vec::new();
                push_str(&mut m, "unauthorized: remote caller ");
                push_str(&mut m, id.as_str());
                push_str(&mut m, " (authenticate with a token first)");
                Err(IndexError(string_from(&m)))
            },
        }
    }
}

/// The directive a link appends to the source block: `![[target]]` or `[[target]]`.
pub open spec fn directive_text(target: Seq<char>, embed: bool) -> Seq<char> {
    if embed {
        "![["@ + target + "]]"@
    } else {
        "[["@ + target + "]]"@
    }
}

/// Whether embedding `target` into `source` would close a transclusion cycle: `target` is
/// `source`, or already reaches it through embeds.
pub open spec fn would_cycle(bs: Seq<crate::block::Block>, source: Seq<char>, target: Seq<char>) -> bool {
    source == target || transcludes_to(bs, target, source)
}

/// Decide how to link `source` to `target`: the outcome and the directive to append to the
/// source's body. A requested embed that would close a cycle is downgraded to a plain
/// reference; references are never cycle-checked. Both blocks must exist.
pub fn link_plan(vault: &Vault, source: &BlockId, target: &BlockId, embed: bool) -> (r: Result<(LinkOutcome, String), IndexError>)
    ensures
        index_of_id(vault.entries(), source@) is None ==> (r matches Err(e) && e.0@
            == "unknown source block: "@ + source@),
        index_of_id(vault.entries(), source@) is Some && index_of_id(vault.entries(), target@) is None
            ==> (r matches Err(e) && e.0@ == "unknown target block: "@ + target@),
        index_of_id(vault.entries(), source@) is Some && index_of_id(vault.entries(), target@) is Some
            ==> (r matches Ok((outcome, d)) && {
            let cyc = embed && would_cycle(vault.entries(), source@, target@);
            &&& outcome == (if !embed {
                LinkOutcome::Reference
            } else if cyc {
                LinkOutcome::DowngradedToReference
            } else {
                LinkOutcome::Transclusion
            })
            &&& d@ == directive_text(target@, embed && !cyc)
        }),
{
    if vault.block(source).is_none() {
        let mut m: Vec<char> = Vec::new();
        push_str(&mut m, "unknown source block: ");
        push_str(&mut m, source.as_str());
        return Err(IndexError(string_from(&m)));
    }
    if vault.block(target).is_none() {
        let mut m: Vec<char> = Vec::new();
        push_str(&mut m, "unknown target block: ");
        push_str(&mut m, target.as_str());
        return Err(IndexError(string_from(&m)));
    }
    let mut effective = embed;
    if embed && (source.same(target) || transclusion_reaches(vault, target, source)) {
        effective = false;
    }
    let mut d: Vec<char> = Vec::new();
    if effective {
        push_str(&mut d, "![[");
    } else {
        push_str(&mut d, "[[");
    }
    push_str(&mut d, target.as_str());
    push_str(&mut d, "]]");
    let outcome = if !embed {
        LinkOutcome::Reference
    } else if effective {
        LinkOutcome::Transclusion
    } else {
        LinkOutcome::DowngradedToReference
    };
    Ok((outcome, string_from(&d)))
}

/// The rows of `rows` whose target resolves to no block, in order.
pub open spec fn dangling_rows(rows: Seq<(Seq<char>, Option<Seq<char>>, Seq<char>, crate::index::LinkKind)>) -> Seq<(Seq<char>, Option<Seq<char>>, Seq<char>, crate::index::LinkKind)>
    decreases rows.len(),
{
    if rows.len() == 0 {
        seq![]
    } else if rows.last().1 is None {
        dangling_rows(rows.drop_last()).push(rows.last())
    } else {
        dangling_rows(rows.drop_last())
    }
}

/// The dangling link rows of the blocks `bs[..n]`, block by block.
pub open spec fn dangling_upto(bs: Seq<crate::block::Block>, n: int) -> Seq<(Seq<char>, Option<Seq<char>>, Seq<char>, crate::index::LinkKind)>
    decreases n,
{
    if n <= 0 {
        seq![]
    } else {
        dangling_upto(bs, n - 1) + dangling_rows(links_of(bs, bs[n - 1]))
    }
}

/// Every dangling link of the vault (a directive whose target resolves to no block), block by
/// block in id order, each block's in directive order.
pub fn dangling_links(vault: &Vault) -> (r: Vec<LinkRow>)
    ensures
        rows_view(r@) == dangling_upto(vault.entries(), vault.entries().len() as int),
{
    let blocks = vault.blocks();
    let ghost bs = vault.entries();
    let mut out: Vec<LinkRow> = Vec::new();
    let mut i: usize = 0;
    assert(rows_view(out@) =~= Seq::empty());
    while i < blocks.len()
        invariant
            i <= blocks@.len(),
            bs == vault.entries(),
            blocks@.map_values(|b: &crate::block::Block| *b) == bs,
            rows_view(out@) == dangling_upto(bs, i as int),
        decreases blocks.len() - i,
    {
        let b = blocks[i];
        assert(*b == bs[i as int]);
        let rows = block_links(vault, b);
        let ghost lv = rows_view(rows@);
        let ghost before = rows_view(out@);
        let mut j: usize = 0;
        assert(dangling_rows(lv.take(0)) =~= Seq::empty());
        assert(before + dangling_rows(lv.take(0)) =~= before);
        while j < rows.len()
            invariant
                j <= rows@.len(),
                lv == rows_view(rows@),
                rows_view(out@) == before + dangling_rows(lv.take(j as int)),
            decreases rows.len() - j,
        {
            let ghost t = lv.take(j + 1);
            assert(t.drop_last() =~= lv.take(j as int));
            assert(t.last() == crate::index::row_view(rows@[j as int]));
            let ghost cur = rows_view(out@);
            if rows[j].target_id.is_none() {
                out.push(rows[j].duplicate());
                assert(rows_view(out@) =~= cur.push(crate::index::row_view(rows@[j as int])));
                assert(before + dangling_rows(t) =~= (before + dangling_rows(lv.take(j as int))).push(t.last()));
            }
            j += 1;
        }
        assert(lv.take(rows@.len() as int) =~= lv);
        i += 1;
    }
    out
}

/// The message refusing a carve range that is empty, reversed, out of bounds or not on
/// character boundaries.
pub open spec fn bad_range_message() -> Seq<char> {
    "invalid carve selection range"@
}

/// The text a carve of the bytes `start..end` of `body` moves into the new child (trimmed), or
/// why it cannot be carved.
pub open spec fn carve_of(body: Seq<char>, start: int, end: int) -> Result<Seq<char>, Seq<char>> {
    let b = encode_utf8(body);
    if start >= end || end > b.len() || !is_char_boundary(b, start) || !is_char_boundary(b, end) {
        Err(bad_range_message())
    } else {
        let sel = trim(decode_utf8(b.subrange(start, end)));
        if sel.len() == 0 {
            Err("carve selection is empty"@)
        } else {
            Ok(sel)
        }
    }
}

/// `body` with its bytes `start..end` replaced by an embed of `child`.
pub open spec fn carved_body_of(body: Seq<char>, start: int, end: int, child: Seq<char>) -> Seq<char> {
    let b = encode_utf8(body);
    decode_utf8(b.subrange(0, start)) + "![["@ + child + "]]"@ + decode_utf8(b.subrange(end, b.len() as int))
}

proof fn lemma_boundary_in_prefix(body: &str, head: &str, start: int, end: int)
    requires
        0 <= start < end,
        end <= encode_utf8(body@).len(),
        encode_utf8(head@) == encode_utf8(body@).subrange(0, end),
    ensures
        is_char_boundary(encode_utf8(head@), start) == is_char_boundary(encode_utf8(body@), start),
{
    vstd::utf8::encode_utf8_valid_utf8(body@);
    vstd::utf8::encode_utf8_valid_utf8(head@);
    vstd::utf8::is_char_boundary_iff_not_is_continuation_byte(encode_utf8(body@), start);
    vstd::utf8::is_char_boundary_iff_not_is_continuation_byte(encode_utf8(head@), start);
    assert(encode_utf8(head@)[start] == encode_utf8(body@)[start]);
}

/// The three pieces of `body` around its bytes `start..end`, when those are a valid range.
fn split_range(body: &str, start: usize, end: usize) -> (r: Option<(&str, &str, &str)>)
    ensures
        match r {
            Some((a, m, z)) => {
                let b = encode_utf8(body@);
                &&& start < end <= b.len() && is_char_boundary(b, start as int) && is_char_boundary(b, end as int)
                &&& a@ == decode_utf8(b.subrange(0, start as int))
                &&& m@ == decode_utf8(b.subrange(start as int, end as int))
                &&& z@ == decode_utf8(b.subrange(end as int, b.len() as int))
            },
            None => {
                let b = encode_utf8(body@);
                start >= end || end > b.len() || !is_char_boundary(b, start as int) || !is_char_boundary(
                    b,
                    end as int,
                )
            },
        },
{
    proof {
        vstd::utf8::encode_utf8_valid_utf8(body@);
    }
    if start >= end || end > body.as_bytes().len() || !body.is_char_boundary(start) || !body.is_char_boundary(end) {
        return None;
    }
    let (head, tail) = body.split_at(end);
    proof {
        lemma_boundary_in_prefix(body, head, start as int, end as int);
    }
    let (pre, mid) = head.split_at(start);
    proof {
        let b = encode_utf8(body@);
        assert(encode_utf8(mid@) =~= b.subrange(start as int, end as int));
        assert(encode_utf8(pre@) =~= b.subrange(0, start as int));
        vstd::utf8::encode_utf8_decode_utf8(pre@);
        vstd::utf8::encode_utf8_decode_utf8(mid@);
        vstd::utf8::encode_utf8_decode_utf8(tail@);
    }
    Some((pre, mid, tail))
}

/// The text to carve out of `body` (bytes `start..end`, trimmed) for a new child, or the
/// error: a range that is empty, reversed, past the end or off a character boundary, or a
/// selection of only whitespace.
pub fn carve_selection_text(body: &str, start: usize, end: usize) -> (r: Result<String, IndexError>)
    ensures
        match carve_of(body@, start as int, end as int) {
            Ok(t) => r matches Ok(s) && s@ == t,
            Err(e) => r matches Err(x) && x.0@ == e,
        },
{
    match split_range(body, start, end) {
        None => Err(IndexError("invalid carve selection range".to_owned())),
        Some((_, mid, _)) => {
            let v = chars_of(mid);
            let (a, b) = trim_bounds(&v, 0, v.len());
            assert(v@.subrange(0, v@.len() as int) =~= v@);
            if a == b {
                return Err(IndexError("carve selection is empty".to_owned()));
            }
            let t = copy_range(&v, a, b);
            Ok(crate::text::string_from(&t))
        },
    }
}

/// `body` with its bytes `start..end` replaced in place by `![[child]]`.
pub fn carved_body(body: &str, start: usize, end: usize, child: &BlockId) -> (r: Option<String>)
    ensures
        carve_of(body@, start as int, end as int) is Ok ==> (r matches Some(s) && s@ == carved_body_of(
            body@,
            start as int,
            end as int,
            child@,
        )),
        carve_of(body@, start as int, end as int) matches Err(e) && e == bad_range_message() ==> r is None,
{
    proof {
        reveal_strlit("invalid carve selection range");
        reveal_strlit("carve selection is empty");
        assert("carve selection is empty"@.len() != bad_range_message().len());
    }
    match split_range(body, start, end) {
        None => None,
        Some((pre, _, post)) => {
            let mut out: Vec<char> = Vec::new();
            push_str(&mut out, pre);
            push_str(&mut out, "![[");
            push_str(&mut out, child.as_str());
            push_str(&mut out, "]]");
            push_str(&mut out, post);
            Some(string_from(&out))
        },
    }
}

} // verus!
