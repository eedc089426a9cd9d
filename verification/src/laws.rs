//! Laws of the pipeline: resolution is idempotent, and the pipeline is a
//! function of the source text alone.

use vstd::prelude::*;

use crate::model::BlockV;
use crate::model::DocumentV;
use crate::model::GroupV;
use crate::model::ItemV;
use crate::model::ValueV;
use crate::model::block_concrete;
use crate::model::blocks_concrete;
use crate::model::doc_concrete;
use crate::model::group_concrete;
use crate::model::item_concrete;
use crate::model::lemma_blocks_concrete;
use crate::model::lemma_find_key;
use crate::model::lemma_upsert;
use crate::model::find_key;
use crate::model::has_key;
use crate::model::pairs_concrete;
use crate::model::unique_keys;
use crate::model::upsert;
use crate::resolver::resolve_block;
use crate::resolver::resolve_blocks;
use crate::resolver::resolve_group;
use crate::resolver::resolve_groups;
use crate::resolver::resolve_item;
use crate::resolver::resolve_items;
use crate::resolver::resolve_pairs;
use crate::resolver::resolve_value;
use crate::resolver::resolve_vars;
use crate::resolver::spec_resolve;
use crate::spec_pipeline;

verus! {

// ---------------------------------------------------------------------------
// Tidiness: every map of a value has unique keys, recursively.
// ---------------------------------------------------------------------------

/// The first `n` block entries have tidy children.
pub open spec fn blocks_tidy(s: Seq<(Seq<char>, BlockV)>, n: int) -> bool
    decreases s, n,
        when n <= s.len()
{
    if n <= 0 {
        true
    } else {
        proof {
            assert(decreases_to!(s => s[n - 1]));
            assert(decreases_to!(s[n - 1] => s[n - 1].1));
        }
        blocks_tidy(s, n - 1) && block_tidy(s[n - 1].1)
    }
}

/// Unique keys in the block's own maps, and in every descendant's.
pub open spec fn block_tidy(b: BlockV) -> bool
    decreases b, 0int,
{
    unique_keys(b.pairs) && unique_keys(b.blocks) && blocks_tidy(b.blocks, b.blocks.len() as int)
}

/// `blocks_tidy` holds exactly when each entry's child is tidy.
pub proof fn lemma_blocks_tidy(s: Seq<(Seq<char>, BlockV)>, n: int)
    requires
        0 <= n <= s.len(),
    ensures
        blocks_tidy(s, n) <==> (forall|i: int| 0 <= i < n ==> block_tidy(#[trigger] s[i].1)),
    decreases n,
{
    if n > 0 {
        lemma_blocks_tidy(s, n - 1);
    }
}

/// Unique keys in an item's maps and those of its blocks.
pub open spec fn item_tidy(it: ItemV) -> bool {
    unique_keys(it.pairs) && unique_keys(it.blocks) && blocks_tidy(
        it.blocks,
        it.blocks.len() as int,
    )
}

/// Unique keys in a group's maps and those of its blocks.
pub open spec fn group_tidy(g: GroupV) -> bool {
    unique_keys(g.pairs) && unique_keys(g.blocks) && blocks_tidy(g.blocks, g.blocks.len() as int)
        && unique_keys(g.reference)
}

/// Unique keys in every map of the document, recursively.
pub open spec fn doc_tidy(d: DocumentV) -> bool {
    unique_keys(d.variables) && unique_keys(d.items) && unique_keys(d.groups) && (forall|i: int|
        0 <= i < d.items.len() ==> item_tidy(#[trigger] d.items[i].1)) && (forall|i: int|
        0 <= i < d.groups.len() ==> group_tidy(#[trigger] d.groups[i].1))
}

// ---------------------------------------------------------------------------
// What resolution puts out: tidy, concrete values.
// ---------------------------------------------------------------------------

/// A value that resolution accepted is concrete.
proof fn lemma_resolve_value_out(
    vars: Seq<(Seq<char>, ValueV)>,
    v: ValueV,
    ctx: Seq<char>,
)
    ensures
        resolve_value(vars, v, ctx) matches Ok(rv) ==> !(rv is Var),
{
}

/// A pair list that resolution accepted is tidy and concrete.
proof fn lemma_resolve_pairs_out(
    vars: Seq<(Seq<char>, ValueV)>,
    s: Seq<(Seq<char>, ValueV)>,
    n: int,
    ctx: Seq<char>,
)
    ensures
        resolve_pairs(vars, s, n, ctx) matches Ok(r) ==> unique_keys(r) && pairs_concrete(r),
    decreases n,
{
    if n <= 0 {
    } else {
        lemma_resolve_pairs_out(vars, s, n - 1, ctx);
        if resolve_pairs(vars, s, n, ctx) is Ok {
            let acc = resolve_pairs(vars, s, n - 1, ctx)->Ok_0;
            let v = resolve_value(vars, s[n - 1].1, ctx)->Ok_0;
            lemma_resolve_value_out(vars, s[n - 1].1, ctx);
            lemma_upsert(acc, s[n - 1].0, v);
            let r = upsert(acc, s[n - 1].0, v);
            lemma_find_key(acc, s[n - 1].0);
            assert forall|i: int| 0 <= i < r.len() implies !(#[trigger] r[i].1 is Var) by {
                if has_key(acc, s[n - 1].0) {
                    if i != find_key(acc, s[n - 1].0) {
                        assert(r[i] == acc[i]);
                    }
                } else {
                    if i < acc.len() {
                        assert(r[i] == acc[i]);
                    }
                }
            }
        }
    }
}

/// A variable map that resolution accepted is tidy and concrete.
proof fn lemma_resolve_vars_out(vars: Seq<(Seq<char>, ValueV)>, n: int)
    ensures
        resolve_vars(vars, n) matches Ok(r) ==> unique_keys(r) && pairs_concrete(r),
    decreases n,
{
    if n <= 0 {
    } else {
        lemma_resolve_vars_out(vars, n - 1);
        if resolve_vars(vars, n) is Ok {
            let acc = resolve_vars(vars, n - 1)->Ok_0;
            let v = resolve_value(vars, vars[n - 1].1, vars[n - 1].0)->Ok_0;
            lemma_resolve_value_out(vars, vars[n - 1].1, vars[n - 1].0);
            lemma_upsert(acc, vars[n - 1].0, v);
            let r = upsert(acc, vars[n - 1].0, v);
            lemma_find_key(acc, vars[n - 1].0);
            assert forall|i: int| 0 <= i < r.len() implies !(#[trigger] r[i].1 is Var) by {
                if has_key(acc, vars[n - 1].0) {
                    if i != find_key(acc, vars[n - 1].0) {
                        assert(r[i] == acc[i]);
                    }
                } else {
                    if i < acc.len() {
                        assert(r[i] == acc[i]);
                    }
                }
            }
        }
    }
}

/// A block that resolution accepted is tidy and concrete.
proof fn lemma_resolve_block_out(vars: Seq<(Seq<char>, ValueV)>, b: BlockV)
    ensures
        resolve_block(vars, b) matches Ok(rb) ==> block_tidy(rb) && block_concrete(rb),
    decreases b, 1int,
{
    if resolve_block(vars, b) is Ok {
        lemma_resolve_pairs_out(vars, b.pairs, b.pairs.len() as int, b.id);
        assert(decreases_to!(b, 1int => b.blocks, b.blocks.len() as int));
        lemma_resolve_blocks_out(vars, b.blocks, b.blocks.len() as int);
        let rb = resolve_block(vars, b)->Ok_0;
        lemma_blocks_tidy(rb.blocks, rb.blocks.len() as int);
        lemma_blocks_concrete(rb.blocks, rb.blocks.len() as int);
    }
}

/// A block list that resolution accepted is tidy and concrete, entry by
/// entry.
proof fn lemma_resolve_blocks_out(
    vars: Seq<(Seq<char>, ValueV)>,
    s: Seq<(Seq<char>, BlockV)>,
    n: int,
)
    requires
        0 <= n <= s.len(),
    ensures
        resolve_blocks(vars, s, n) matches Ok(r) ==> unique_keys(r) && (forall|i: int|
            0 <= i < r.len() ==> block_tidy(#[trigger] r[i].1) && block_concrete(r[i].1)),
    decreases s, n,
{
    if n <= 0 {
    } else {
        lemma_resolve_blocks_out(vars, s, n - 1);
        if resolve_blocks(vars, s, n) is Ok {
            let acc = resolve_blocks(vars, s, n - 1)->Ok_0;
            assert(decreases_to!(s => s[n - 1]));
            assert(decreases_to!(s[n - 1] => s[n - 1].1));
            lemma_resolve_block_out(vars, s[n - 1].1);
            let rb = resolve_block(vars, s[n - 1].1)->Ok_0;
            lemma_upsert(acc, s[n - 1].0, rb);
            let r = upsert(acc, s[n - 1].0, rb);
            lemma_find_key(acc, s[n - 1].0);
            assert forall|i: int| 0 <= i < r.len() implies block_tidy(#[trigger] r[i].1)
                && block_concrete(r[i].1) by {
                if has_key(acc, s[n - 1].0) {
                    if i != find_key(acc, s[n - 1].0) {
                        assert(r[i] == acc[i]);
                    }
                } else {
                    if i < acc.len() {
                        assert(r[i] == acc[i]);
                    }
                }
            }
        }
    }
}

/// An item that resolution accepted is tidy and concrete.
proof fn lemma_resolve_item_out(vars: Seq<(Seq<char>, ValueV)>, it: ItemV)
    ensures
        resolve_item(vars, it) matches Ok(ri) ==> item_tidy(ri) && item_concrete(ri),
{
    if resolve_item(vars, it) is Ok {
        lemma_resolve_pairs_out(vars, it.pairs, it.pairs.len() as int, it.id);
        lemma_resolve_blocks_out(vars, it.blocks, it.blocks.len() as int);
        let ri = resolve_item(vars, it)->Ok_0;
        lemma_blocks_tidy(ri.blocks, ri.blocks.len() as int);
        lemma_blocks_concrete(ri.blocks, ri.blocks.len() as int);
    }
}

/// A group that resolution accepted is tidy and concrete.
proof fn lemma_resolve_group_out(vars: Seq<(Seq<char>, ValueV)>, g: GroupV)
    ensures
        resolve_group(vars, g) matches Ok(rg) ==> group_tidy(rg) && group_concrete(rg),
{
    if resolve_group(vars, g) is Ok {
        lemma_resolve_pairs_out(vars, g.pairs, g.pairs.len() as int, g.id);
        lemma_resolve_blocks_out(vars, g.blocks, g.blocks.len() as int);
        lemma_resolve_pairs_out(vars, g.reference, g.reference.len() as int, g.id);
        let rg = resolve_group(vars, g)->Ok_0;
        lemma_blocks_tidy(rg.blocks, rg.blocks.len() as int);
        lemma_blocks_concrete(rg.blocks, rg.blocks.len() as int);
    }
}

/// An item list that resolution accepted is tidy and concrete, entry by
/// entry.
proof fn lemma_resolve_items_out(
    vars: Seq<(Seq<char>, ValueV)>,
    s: Seq<(Seq<char>, ItemV)>,
    n: int,
)
    ensures
        resolve_items(vars, s, n) matches Ok(r) ==> unique_keys(r) && (forall|i: int|
            0 <= i < r.len() ==> item_tidy(#[trigger] r[i].1) && item_concrete(r[i].1)),
    decreases n,
{
    if n <= 0 {
    } else {
        lemma_resolve_items_out(vars, s, n - 1);
        if resolve_items(vars, s, n) is Ok {
            let acc = resolve_items(vars, s, n - 1)->Ok_0;
            lemma_resolve_item_out(vars, s[n - 1].1);
            let ri = resolve_item(vars, s[n - 1].1)->Ok_0;
            lemma_upsert(acc, s[n - 1].0, ri);
            let r = upsert(acc, s[n - 1].0, ri);
            lemma_find_key(acc, s[n - 1].0);
            assert forall|i: int| 0 <= i < r.len() implies item_tidy(#[trigger] r[i].1)
                && item_concrete(r[i].1) by {
                if has_key(acc, s[n - 1].0) {
                    if i != find_key(acc, s[n - 1].0) {
                        assert(r[i] == acc[i]);
                    }
                } else {
                    if i < acc.len() {
                        assert(r[i] == acc[i]);
                    }
                }
            }
        }
    }
}

/// A group list that resolution accepted is tidy and concrete, entry by
/// entry.
proof fn lemma_resolve_groups_out(
    vars: Seq<(Seq<char>, ValueV)>,
    s: Seq<(Seq<char>, GroupV)>,
    n: int,
)
    ensures
        resolve_groups(vars, s, n) matches Ok(r) ==> unique_keys(r) && (forall|i: int|
            0 <= i < r.len() ==> group_tidy(#[trigger] r[i].1) && group_concrete(r[i].1)),
    decreases n,
{
    if n <= 0 {
    } else {
        lemma_resolve_groups_out(vars, s, n - 1);
        if resolve_groups(vars, s, n) is Ok {
            let acc = resolve_groups(vars, s, n - 1)->Ok_0;
            lemma_resolve_group_out(vars, s[n - 1].1);
            let rg = resolve_group(vars, s[n - 1].1)->Ok_0;
            lemma_upsert(acc, s[n - 1].0, rg);
            let r = upsert(acc, s[n - 1].0, rg);
            lemma_find_key(acc, s[n - 1].0);
            assert forall|i: int| 0 <= i < r.len() implies group_tidy(#[trigger] r[i].1)
                && group_concrete(r[i].1) by {
                if has_key(acc, s[n - 1].0) {
                    if i != find_key(acc, s[n - 1].0) {
                        assert(r[i] == acc[i]);
                    }
                } else {
                    if i < acc.len() {
                        assert(r[i] == acc[i]);
                    }
                }
            }
        }
    }
}

/// A document that resolution accepted is tidy and concrete.
pub proof fn lemma_resolve_out(d: DocumentV)
    ensures
        spec_resolve(d) matches Ok(r) ==> doc_tidy(r) && doc_concrete(r),
{
    if spec_resolve(d) is Ok {
        lemma_resolve_vars_out(d.variables, d.variables.len() as int);
        let vs = resolve_vars(d.variables, d.variables.len() as int)->Ok_0;
        lemma_resolve_items_out(vs, d.items, d.items.len() as int);
        lemma_resolve_groups_out(vs, d.groups, d.groups.len() as int);
    }
}

// ---------------------------------------------------------------------------
// Resolving a tidy, concrete value changes nothing.
// ---------------------------------------------------------------------------

/// In a unique-keyed list, no prefix holds the key of the entry that
/// follows it.
proof fn lemma_key_fresh_in_take<T>(s: Seq<(Seq<char>, T)>, n: int)
    requires
        unique_keys(s),
        0 < n <= s.len(),
    ensures
        !has_key(s.take(n - 1), s[n - 1].0),
{
    let t = s.take(n - 1);
    lemma_find_key(t, s[n - 1].0);
    if find_key(t, s[n - 1].0) >= 0 {
        let i = find_key(t, s[n - 1].0);
        assert(t[i] == s[i]);
        assert(s[i].0 != s[n - 1].0);
    }
}

/// Resolving a tidy, concrete pair list reproduces it.
proof fn lemma_resolve_pairs_id(
    vars: Seq<(Seq<char>, ValueV)>,
    s: Seq<(Seq<char>, ValueV)>,
    n: int,
    ctx: Seq<char>,
)
    requires
        unique_keys(s),
        pairs_concrete(s),
        0 <= n <= s.len(),
    ensures
        resolve_pairs(vars, s, n, ctx) == Ok::<Seq<(Seq<char>, ValueV)>, crate::resolver::ResErrV>(
            s.take(n),
        ),
    decreases n,
{
    if n <= 0 {
        assert(s.take(0) =~= Seq::<(Seq<char>, ValueV)>::empty());
    } else {
        lemma_resolve_pairs_id(vars, s, n - 1, ctx);
        assert(!(s[n - 1].1 is Var));
        lemma_key_fresh_in_take(s, n);
        lemma_find_key(s.take(n - 1), s[n - 1].0);
        assert(upsert(s.take(n - 1), s[n - 1].0, s[n - 1].1) == s.take(n - 1).push(
            (s[n - 1].0, s[n - 1].1),
        ));
        assert(s.take(n - 1).push((s[n - 1].0, s[n - 1].1)) =~= s.take(n));
    }
}

/// Resolving a tidy, concrete variable map reproduces it.
proof fn lemma_resolve_vars_id(vars: Seq<(Seq<char>, ValueV)>, n: int)
    requires
        unique_keys(vars),
        pairs_concrete(vars),
        0 <= n <= vars.len(),
    ensures
        resolve_vars(vars, n) == Ok::<Seq<(Seq<char>, ValueV)>, crate::resolver::ResErrV>(
            vars.take(n),
        ),
    decreases n,
{
    if n <= 0 {
        assert(vars.take(0) =~= Seq::<(Seq<char>, ValueV)>::empty());
    } else {
        lemma_resolve_vars_id(vars, n - 1);
        assert(!(vars[n - 1].1 is Var));
        lemma_key_fresh_in_take(vars, n);
        lemma_find_key(vars.take(n - 1), vars[n - 1].0);
        assert(upsert(vars.take(n - 1), vars[n - 1].0, vars[n - 1].1) == vars.take(n - 1).push(
            (vars[n - 1].0, vars[n - 1].1),
        ));
        assert(vars.take(n - 1).push((vars[n - 1].0, vars[n - 1].1)) =~= vars.take(n));
    }
}

/// Resolving a tidy, concrete block reproduces it.
proof fn lemma_resolve_block_id(vars: Seq<(Seq<char>, ValueV)>, b: BlockV)
    requires
        block_tidy(b),
        block_concrete(b),
    ensures
        resolve_block(vars, b) == Ok::<BlockV, crate::resolver::ResErrV>(b),
    decreases b, 1int,
{
    lemma_resolve_pairs_id(vars, b.pairs, b.pairs.len() as int, b.id);
    assert(b.pairs.take(b.pairs.len() as int) =~= b.pairs);
    lemma_blocks_tidy(b.blocks, b.blocks.len() as int);
    lemma_blocks_concrete(b.blocks, b.blocks.len() as int);
    assert(decreases_to!(b, 1int => b.blocks, b.blocks.len() as int));
    lemma_resolve_blocks_id(vars, b.blocks, b.blocks.len() as int);
    assert(b.blocks.take(b.blocks.len() as int) =~= b.blocks);
    assert(resolve_block(vars, b)->Ok_0 =~= b);
}

/// Resolving a list of tidy, concrete blocks reproduces it.
proof fn lemma_resolve_blocks_id(
    vars: Seq<(Seq<char>, ValueV)>,
    s: Seq<(Seq<char>, BlockV)>,
    n: int,
)
    requires
        unique_keys(s),
        0 <= n <= s.len(),
        forall|i: int| 0 <= i < s.len() ==> block_tidy(#[trigger] s[i].1),
        forall|i: int| 0 <= i < s.len() ==> block_concrete(#[trigger] s[i].1),
    ensures
        resolve_blocks(vars, s, n) == Ok::<Seq<(Seq<char>, BlockV)>, crate::resolver::ResErrV>(
            s.take(n),
        ),
    decreases s, n,
{
    if n <= 0 {
        assert(s.take(0) =~= Seq::<(Seq<char>, BlockV)>::empty());
    } else {
        lemma_resolve_blocks_id(vars, s, n - 1);
        assert(decreases_to!(s => s[n - 1]));
        assert(decreases_to!(s[n - 1] => s[n - 1].1));
        lemma_resolve_block_id(vars, s[n - 1].1);
        lemma_key_fresh_in_take(s, n);
        lemma_find_key(s.take(n - 1), s[n - 1].0);
        assert(upsert(s.take(n - 1), s[n - 1].0, s[n - 1].1) == s.take(n - 1).push(
            (s[n - 1].0, s[n - 1].1),
        ));
        assert(s.take(n - 1).push((s[n - 1].0, s[n - 1].1)) =~= s.take(n));
    }
}

/// Resolving a tidy, concrete item reproduces it.
proof fn lemma_resolve_item_id(vars: Seq<(Seq<char>, ValueV)>, it: ItemV)
    requires
        item_tidy(it),
        item_concrete(it),
    ensures
        resolve_item(vars, it) == Ok::<ItemV, crate::resolver::ResErrV>(it),
{
    lemma_resolve_pairs_id(vars, it.pairs, it.pairs.len() as int, it.id);
    assert(it.pairs.take(it.pairs.len() as int) =~= it.pairs);
    lemma_blocks_tidy(it.blocks, it.blocks.len() as int);
    lemma_blocks_concrete(it.blocks, it.blocks.len() as int);
    lemma_resolve_blocks_id(vars, it.blocks, it.blocks.len() as int);
    assert(it.blocks.take(it.blocks.len() as int) =~= it.blocks);
    assert(resolve_item(vars, it)->Ok_0 =~= it);
}

/// Resolving a tidy, concrete group reproduces it.
proof fn lemma_resolve_group_id(vars: Seq<(Seq<char>, ValueV)>, g: GroupV)
    requires
        group_tidy(g),
        group_concrete(g),
    ensures
        resolve_group(vars, g) == Ok::<GroupV, crate::resolver::ResErrV>(g),
{
    lemma_resolve_pairs_id(vars, g.pairs, g.pairs.len() as int, g.id);
    assert(g.pairs.take(g.pairs.len() as int) =~= g.pairs);
    lemma_blocks_tidy(g.blocks, g.blocks.len() as int);
    lemma_blocks_concrete(g.blocks, g.blocks.len() as int);
    lemma_resolve_blocks_id(vars, g.blocks, g.blocks.len() as int);
    assert(g.blocks.take(g.blocks.len() as int) =~= g.blocks);
    lemma_resolve_pairs_id(vars, g.reference, g.reference.len() as int, g.id);
    assert(g.reference.take(g.reference.len() as int) =~= g.reference);
    assert(resolve_group(vars, g)->Ok_0 =~= g);
}

/// Resolving a list of tidy, concrete items reproduces it.
proof fn lemma_resolve_items_id(
    vars: Seq<(Seq<char>, ValueV)>,
    s: Seq<(Seq<char>, ItemV)>,
    n: int,
)
    requires
        unique_keys(s),
        0 <= n <= s.len(),
        forall|i: int| 0 <= i < s.len() ==> item_tidy(#[trigger] s[i].1),
        forall|i: int| 0 <= i < s.len() ==> item_concrete(#[trigger] s[i].1),
    ensures
        resolve_items(vars, s, n) == Ok::<Seq<(Seq<char>, ItemV)>, crate::resolver::ResErrV>(
            s.take(n),
        ),
    decreases n,
{
    if n <= 0 {
        assert(s.take(0) =~= Seq::<(Seq<char>, ItemV)>::empty());
    } else {
        lemma_resolve_items_id(vars, s, n - 1);
        lemma_resolve_item_id(vars, s[n - 1].1);
        lemma_key_fresh_in_take(s, n);
        lemma_find_key(s.take(n - 1), s[n - 1].0);
        assert(upsert(s.take(n - 1), s[n - 1].0, s[n - 1].1) == s.take(n - 1).push(
            (s[n - 1].0, s[n - 1].1),
        ));
        assert(s.take(n - 1).push((s[n - 1].0, s[n - 1].1)) =~= s.take(n));
    }
}

/// Resolving a list of tidy, concrete groups reproduces it.
proof fn lemma_resolve_groups_id(
    vars: Seq<(Seq<char>, ValueV)>,
    s: Seq<(Seq<char>, GroupV)>,
    n: int,
)
    requires
        unique_keys(s),
        0 <= n <= s.len(),
        forall|i: int| 0 <= i < s.len() ==> group_tidy(#[trigger] s[i].1),
        forall|i: int| 0 <= i < s.len() ==> group_concrete(#[trigger] s[i].1),
    ensures
        resolve_groups(vars, s, n) == Ok::<Seq<(Seq<char>, GroupV)>, crate::resolver::ResErrV>(
            s.take(n),
        ),
    decreases n,
{
    if n <= 0 {
        assert(s.take(0) =~= Seq::<(Seq<char>, GroupV)>::empty());
    } else {
        lemma_resolve_groups_id(vars, s, n - 1);
        lemma_resolve_group_id(vars, s[n - 1].1);
        lemma_key_fresh_in_take(s, n);
        lemma_find_key(s.take(n - 1), s[n - 1].0);
        assert(upsert(s.take(n - 1), s[n - 1].0, s[n - 1].1) == s.take(n - 1).push(
            (s[n - 1].0, s[n - 1].1),
        ));
        assert(s.take(n - 1).push((s[n - 1].0, s[n - 1].1)) =~= s.take(n));
    }
}

/// Resolving a tidy, concrete document reproduces it.
pub proof fn lemma_resolve_id(d: DocumentV)
    requires
        doc_tidy(d),
        doc_concrete(d),
    ensures
        spec_resolve(d) == Ok::<DocumentV, crate::resolver::ResErrV>(d),
{
    lemma_resolve_vars_id(d.variables, d.variables.len() as int);
    assert(d.variables.take(d.variables.len() as int) =~= d.variables);
    lemma_resolve_items_id(d.variables, d.items, d.items.len() as int);
    assert(d.items.take(d.items.len() as int) =~= d.items);
    lemma_resolve_groups_id(d.variables, d.groups, d.groups.len() as int);
    assert(d.groups.take(d.groups.len() as int) =~= d.groups);
    assert(spec_resolve(d)->Ok_0 =~= d);
}

// ---------------------------------------------------------------------------
// The laws themselves.
// ---------------------------------------------------------------------------

/// Law: resolution is idempotent.  Whatever document resolution accepts,
/// resolving its result again changes nothing and cannot fail.
pub proof fn lemma_resolve_idempotent(d: DocumentV)
    ensures
        spec_resolve(d) matches Ok(r) ==> spec_resolve(r) == Ok::<
            DocumentV,
            crate::resolver::ResErrV,
        >(r),
{
    if spec_resolve(d) is Ok {
        let r = spec_resolve(d)->Ok_0;
        lemma_resolve_out(d);
        lemma_resolve_id(r);
    }
}

/// Law: the pipeline is deterministic.  Its outcome — document or error —
/// is a function of the source text alone, so running it twice on the same
/// text gives structurally equal documents.
pub proof fn lemma_pipeline_deterministic(t1: Seq<char>, t2: Seq<char>)
    requires
        t1 == t2,
    ensures
        spec_pipeline(t1) == spec_pipeline(t2),
{
}

/// Law: the pipeline's own output is a fixed point of resolution:
/// re-resolving a document the pipeline produced gives it back unchanged.
pub proof fn lemma_pipeline_idempotent(s: Seq<char>)
    ensures
        spec_pipeline(s) matches Ok(r) ==> spec_resolve(r) == Ok::<
            DocumentV,
            crate::resolver::ResErrV,
        >(r),
{
    if spec_pipeline(s) is Ok {
        let ts = crate::token::spec_tokenize(s, 0, 1)->Ok_0;
        let d = crate::parser::spec_parse(ts)->Ok_0;
        lemma_resolve_idempotent(d);
    }
}

} // verus!
