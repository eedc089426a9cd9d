//! The reference resolver: substituting pending variable references by
//! their bound scalar values.
//!
//! Variables are looked up in the *whole* document's variable map, so a
//! reference may stand before the declaration it names (forward references
//! are legal).  The variable map itself is resolved first, against its raw
//! form: a variable bound to another variable's name takes that variable's
//! concrete value; a chain of two or more pending names is unresolved.
//! Items and groups — pairs, nested blocks, and reference weights — are then
//! resolved against the resolved variable map.  The first unresolved name,
//! in document order, is reported as [`ResolveError::UnresolvedReference`]
//! with the name and the identifier of its innermost container.

use vstd::prelude::*;

use crate::model::Block;
use crate::model::BlockMap;
use crate::model::BlockV;
use crate::model::Document;
use crate::model::DocumentV;
use crate::model::Group;
use crate::model::GroupV;
use crate::model::Item;
use crate::model::ItemV;
use crate::model::KvMap;
use crate::model::Value;
use crate::model::ValueV;
use crate::model::has_key;
use crate::model::lookup;
use crate::model::upsert;

verus! {

/// A resolution failure.
#[derive(Debug, PartialEq, Eq)]
pub enum ResolveError {
    /// A variable name with no matching declaration: the name, and the
    /// identifier of the variable, item, group or block it stood in.
    UnresolvedReference { name: String, context: String },
    /// Strict mode only: a group's `&Identifier` names no declared item or
    /// group.
    DanglingReference { group: String, identifier: String },
}

/// The mathematical model of a [`ResolveError`].
pub enum ResErrV {
    Unresolved { name: Seq<char>, context: Seq<char> },
    Dangling { group: Seq<char>, identifier: Seq<char> },
}

impl DeepView for ResolveError {
    type V = ResErrV;

    open spec fn deep_view(&self) -> ResErrV {
        match self {
            ResolveError::UnresolvedReference { name, context } => ResErrV::Unresolved {
                name: name@,
                context: context@,
            },
            ResolveError::DanglingReference { group, identifier } => ResErrV::Dangling {
                group: group@,
                identifier: identifier@,
            },
        }
    }
}

/// One value resolved against the variable environment `vars`: a concrete
/// value passes unchanged; a pending name takes the concrete value bound to
/// it, and is unresolved when the name is unbound or itself bound to a
/// pending name.
pub open spec fn resolve_value(
    vars: Seq<(Seq<char>, ValueV)>,
    v: ValueV,
    ctx: Seq<char>,
) -> Result<ValueV, ResErrV> {
    match v {
        ValueV::Var(name) => match lookup(vars, name) {
            Some(bound) => if bound is Var {
                Err(ResErrV::Unresolved { name, context: ctx })
            } else {
                Ok(bound)
            },
            None => Err(ResErrV::Unresolved { name, context: ctx }),
        },
        _ => Ok(v),
    }
}

/// The first `n` entries of a pair list resolved against `vars`, in order,
/// in context `ctx`.
pub open spec fn resolve_pairs(
    vars: Seq<(Seq<char>, ValueV)>,
    s: Seq<(Seq<char>, ValueV)>,
    n: int,
    ctx: Seq<char>,
) -> Result<Seq<(Seq<char>, ValueV)>, ResErrV>
    decreases n,
{
    if n <= 0 {
        Ok(Seq::empty())
    } else {
        match resolve_pairs(vars, s, n - 1, ctx) {
            Ok(acc) => match resolve_value(vars, s[n - 1].1, ctx) {
                Ok(v) => Ok(upsert(acc, s[n - 1].0, v)),
                Err(e) => Err(e),
            },
            Err(e) => Err(e),
        }
    }
}

/// The first `n` variable bindings resolved against the whole raw variable
/// map `vars`, each in the context of its own name.  Declaration order is
/// irrelevant to the outcome of any one binding: this is the
/// forward-reference guarantee.
pub open spec fn resolve_vars(vars: Seq<(Seq<char>, ValueV)>, n: int) -> Result<
    Seq<(Seq<char>, ValueV)>,
    ResErrV,
>
    decreases n,
{
    if n <= 0 {
        Ok(Seq::empty())
    } else {
        match resolve_vars(vars, n - 1) {
            Ok(acc) => match resolve_value(vars, vars[n - 1].1, vars[n - 1].0) {
                Ok(v) => Ok(upsert(acc, vars[n - 1].0, v)),
                Err(e) => Err(e),
            },
            Err(e) => Err(e),
        }
    }
}

/// A block resolved against `vars`: its pairs in the context of its own
/// name, its children recursively.
pub open spec fn resolve_block(vars: Seq<(Seq<char>, ValueV)>, b: BlockV) -> Result<
    BlockV,
    ResErrV,
>
    decreases b, 0int,
{
    match resolve_pairs(vars, b.pairs, b.pairs.len() as int, b.id) {
        Ok(ps) => match resolve_blocks(vars, b.blocks, b.blocks.len() as int) {
            Ok(bs) => Ok(BlockV { id: b.id, pairs: ps, blocks: bs }),
            Err(e) => Err(e),
        },
        Err(e) => Err(e),
    }
}

/// The first `n` child blocks resolved against `vars`, in order.
pub open spec fn resolve_blocks(
    vars: Seq<(Seq<char>, ValueV)>,
    s: Seq<(Seq<char>, BlockV)>,
    n: int,
) -> Result<Seq<(Seq<char>, BlockV)>, ResErrV>
    decreases s, n,
        when n <= s.len()
{
    if n <= 0 {
        Ok(Seq::empty())
    } else {
        proof {
            assert(decreases_to!(s => s[n - 1]));
            assert(decreases_to!(s[n - 1] => s[n - 1].1));
        }
        match resolve_blocks(vars, s, n - 1) {
            Ok(acc) => match resolve_block(vars, s[n - 1].1) {
                Ok(b) => Ok(upsert(acc, s[n - 1].0, b)),
                Err(e) => Err(e),
            },
            Err(e) => Err(e),
        }
    }
}

/// An item resolved against `vars`.
pub open spec fn resolve_item(vars: Seq<(Seq<char>, ValueV)>, it: ItemV) -> Result<
    ItemV,
    ResErrV,
> {
    match resolve_pairs(vars, it.pairs, it.pairs.len() as int, it.id) {
        Ok(ps) => match resolve_blocks(vars, it.blocks, it.blocks.len() as int) {
            Ok(bs) => Ok(ItemV { id: it.id, pairs: ps, blocks: bs }),
            Err(e) => Err(e),
        },
        Err(e) => Err(e),
    }
}

/// A group resolved against `vars`: pairs, children, and reference weights.
pub open spec fn resolve_group(vars: Seq<(Seq<char>, ValueV)>, g: GroupV) -> Result<
    GroupV,
    ResErrV,
> {
    match resolve_pairs(vars, g.pairs, g.pairs.len() as int, g.id) {
        Ok(ps) => match resolve_blocks(vars, g.blocks, g.blocks.len() as int) {
            Ok(bs) => match resolve_pairs(vars, g.reference, g.reference.len() as int, g.id) {
                Ok(rs) => Ok(GroupV { id: g.id, pairs: ps, blocks: bs, reference: rs }),
                Err(e) => Err(e),
            },
            Err(e) => Err(e),
        },
        Err(e) => Err(e),
    }
}

/// The first `n` items resolved against `vars`, in order.
pub open spec fn resolve_items(
    vars: Seq<(Seq<char>, ValueV)>,
    s: Seq<(Seq<char>, ItemV)>,
    n: int,
) -> Result<Seq<(Seq<char>, ItemV)>, ResErrV>
    decreases n,
{
    if n <= 0 {
        Ok(Seq::empty())
    } else {
        match resolve_items(vars, s, n - 1) {
            Ok(acc) => match resolve_item(vars, s[n - 1].1) {
                Ok(it) => Ok(upsert(acc, s[n - 1].0, it)),
                Err(e) => Err(e),
            },
            Err(e) => Err(e),
        }
    }
}

/// The first `n` groups resolved against `vars`, in order.
pub open spec fn resolve_groups(
    vars: Seq<(Seq<char>, ValueV)>,
    s: Seq<(Seq<char>, GroupV)>,
    n: int,
) -> Result<Seq<(Seq<char>, GroupV)>, ResErrV>
    decreases n,
{
    if n <= 0 {
        Ok(Seq::empty())
    } else {
        match resolve_groups(vars, s, n - 1) {
            Ok(acc) => match resolve_group(vars, s[n - 1].1) {
                Ok(g) => Ok(upsert(acc, s[n - 1].0, g)),
                Err(e) => Err(e),
            },
            Err(e) => Err(e),
        }
    }
}

/// The whole document resolved: variables first, against their raw form;
/// items and groups after, against the resolved variables.
pub open spec fn spec_resolve(d: DocumentV) -> Result<DocumentV, ResErrV> {
    match resolve_vars(d.variables, d.variables.len() as int) {
        Ok(vs) => match resolve_items(vs, d.items, d.items.len() as int) {
            Ok(is) => match resolve_groups(vs, d.groups, d.groups.len() as int) {
                Ok(gs) => Ok(DocumentV { variables: vs, items: is, groups: gs }),
                Err(e) => Err(e),
            },
            Err(e) => Err(e),
        },
        Err(e) => Err(e),
    }
}

/// Whether `name` names a declared item or group of `d`.
pub open spec fn entity_declared(d: DocumentV, name: Seq<char>) -> bool {
    has_key(d.items, name) || has_key(d.groups, name)
}

/// The first `n` references of group `g` checked against the document's
/// declared entities.
pub open spec fn check_group_refs(d: DocumentV, g: GroupV, n: int) -> Result<(), ResErrV>
    decreases n,
{
    if n <= 0 {
        Ok(())
    } else {
        match check_group_refs(d, g, n - 1) {
            Ok(()) => if entity_declared(d, g.reference[n - 1].0) {
                Ok(())
            } else {
                Err(ResErrV::Dangling { group: g.id, identifier: g.reference[n - 1].0 })
            },
            Err(e) => Err(e),
        }
    }
}

/// The first `n` groups of `d` checked for dangling references.
pub open spec fn check_refs(d: DocumentV, n: int) -> Result<(), ResErrV>
    decreases n,
{
    if n <= 0 {
        Ok(())
    } else {
        match check_refs(d, n - 1) {
            Ok(()) => check_group_refs(d, d.groups[n - 1].1, d.groups[n - 1].1.reference.len() as int),
            Err(e) => Err(e),
        }
    }
}

/// Strict resolution: resolve, then demand that every `&Identifier` of
/// every group names a declared item or group.
pub open spec fn spec_resolve_strict(d: DocumentV) -> Result<DocumentV, ResErrV> {
    match spec_resolve(d) {
        Ok(r) => match check_refs(r, r.groups.len() as int) {
            Ok(()) => Ok(r),
            Err(e) => Err(e),
        },
        Err(e) => Err(e),
    }
}


// ---------------------------------------------------------------------------
// An error struck at any point decides the whole walk.
// ---------------------------------------------------------------------------

proof fn lemma_resolve_pairs_err(
    vars: Seq<(Seq<char>, ValueV)>,
    s: Seq<(Seq<char>, ValueV)>,
    k: int,
    n: int,
    ctx: Seq<char>,
)
    requires
        0 <= k <= n,
        resolve_pairs(vars, s, k, ctx) is Err,
    ensures
        resolve_pairs(vars, s, n, ctx) == resolve_pairs(vars, s, k, ctx),
    decreases n,
{
    if n > k {
        lemma_resolve_pairs_err(vars, s, k, n - 1, ctx);
    }
}

proof fn lemma_resolve_vars_err(vars: Seq<(Seq<char>, ValueV)>, k: int, n: int)
    requires
        0 <= k <= n,
        resolve_vars(vars, k) is Err,
    ensures
        resolve_vars(vars, n) == resolve_vars(vars, k),
    decreases n,
{
    if n > k {
        lemma_resolve_vars_err(vars, k, n - 1);
    }
}

proof fn lemma_resolve_blocks_err(
    vars: Seq<(Seq<char>, ValueV)>,
    s: Seq<(Seq<char>, BlockV)>,
    k: int,
    n: int,
)
    requires
        0 <= k <= n <= s.len(),
        resolve_blocks(vars, s, k) is Err,
    ensures
        resolve_blocks(vars, s, n) == resolve_blocks(vars, s, k),
    decreases n,
{
    if n > k {
        lemma_resolve_blocks_err(vars, s, k, n - 1);
    }
}

proof fn lemma_resolve_items_err(
    vars: Seq<(Seq<char>, ValueV)>,
    s: Seq<(Seq<char>, ItemV)>,
    k: int,
    n: int,
)
    requires
        0 <= k <= n,
        resolve_items(vars, s, k) is Err,
    ensures
        resolve_items(vars, s, n) == resolve_items(vars, s, k),
    decreases n,
{
    if n > k {
        lemma_resolve_items_err(vars, s, k, n - 1);
    }
}

proof fn lemma_resolve_groups_err(
    vars: Seq<(Seq<char>, ValueV)>,
    s: Seq<(Seq<char>, GroupV)>,
    k: int,
    n: int,
)
    requires
        0 <= k <= n,
        resolve_groups(vars, s, k) is Err,
    ensures
        resolve_groups(vars, s, n) == resolve_groups(vars, s, k),
    decreases n,
{
    if n > k {
        lemma_resolve_groups_err(vars, s, k, n - 1);
    }
}

proof fn lemma_check_group_refs_err(d: DocumentV, g: GroupV, k: int, n: int)
    requires
        0 <= k <= n,
        check_group_refs(d, g, k) is Err,
    ensures
        check_group_refs(d, g, n) == check_group_refs(d, g, k),
    decreases n,
{
    if n > k {
        lemma_check_group_refs_err(d, g, k, n - 1);
    }
}

proof fn lemma_check_refs_err(d: DocumentV, k: int, n: int)
    requires
        0 <= k <= n,
        check_refs(d, k) is Err,
    ensures
        check_refs(d, n) == check_refs(d, k),
    decreases n,
{
    if n > k {
        lemma_check_refs_err(d, k, n - 1);
    }
}

// ---------------------------------------------------------------------------
// The executable resolver.
// ---------------------------------------------------------------------------

impl Value {
    /// A copy of this value.
    pub fn cloned(&self) -> (r: Value)
        ensures
            r.deep_view() == self.deep_view(),
    {
        match self {
            Value::Int(n) => Value::Int(*n),
            Value::Float(w) => Value::Float(w.clone()),
            Value::Str(w) => Value::Str(w.clone()),
            Value::Var(w) => Value::Var(w.clone()),
        }
    }
}

/// One value resolved against the variable environment `vars`.
fn resolve_value_in(vars: &KvMap<Value>, v: &Value, ctx: &String) -> (r: Result<
    Value,
    ResolveError,
>)
    ensures
        match r {
            Ok(rv) => resolve_value(vars.deep_view(), v.deep_view(), ctx@) == Ok::<
                ValueV,
                ResErrV,
            >(rv.deep_view()),
            Err(e) => resolve_value(vars.deep_view(), v.deep_view(), ctx@) == Err::<
                ValueV,
                ResErrV,
            >(e.deep_view()),
        },
{
    match v {
        Value::Var(name) => match vars.get(name) {
            Some(bound) => {
                let is_var = matches!(bound, Value::Var(_));
                if is_var {
                    Err(
                        ResolveError::UnresolvedReference {
                            name: name.clone(),
                            context: ctx.clone(),
                        },
                    )
                } else {
                    Ok(bound.cloned())
                }
            },
            None => Err(
                ResolveError::UnresolvedReference { name: name.clone(), context: ctx.clone() },
            ),
        },
        _ => Ok(v.cloned()),
    }
}

/// The resolver: it walks a parsed [`Document`] and fills its own maps
/// with the fully resolved variables, items, and groups.
pub struct Processer {
    pub variable_map: KvMap<Value>,
    pub item_map: KvMap<Item>,
    pub group_map: KvMap<Group>,
}

impl Processer {
    /// A resolver with empty maps.
    pub fn new() -> (r: Processer)
        ensures
            r.variable_map.deep_view() == Seq::<(Seq<char>, ValueV)>::empty(),
            r.item_map.deep_view() == Seq::<(Seq<char>, ItemV)>::empty(),
            r.group_map.deep_view() == Seq::<(Seq<char>, GroupV)>::empty(),
    {
        Processer { variable_map: KvMap::new(), item_map: KvMap::new(), group_map: KvMap::new() }
    }

    /// Bind `name` to `variable` in the variable map.
    pub fn add_variable(&mut self, name: String, variable: Value)
        ensures
            final(self).variable_map.deep_view() == upsert(
                old(self).variable_map.deep_view(),
                name@,
                variable.deep_view(),
            ),
            final(self).item_map == old(self).item_map,
            final(self).group_map == old(self).group_map,
    {
        self.variable_map.insert(name, variable);
    }

    /// Resolve one variable binding against the raw variable map `vars` and
    /// record it.
    pub fn process_variable(&mut self, vars: &KvMap<Value>, name: &String, value: &Value) -> (r:
        Result<(), ResolveError>)
        ensures
            match r {
                Ok(()) => resolve_value(vars.deep_view(), value.deep_view(), name@) matches Ok(rv)
                    && final(self).variable_map.deep_view() == upsert(
                    old(self).variable_map.deep_view(),
                    name@,
                    rv,
                ) && final(self).item_map == old(self).item_map && final(self).group_map == old(
                    self,
                ).group_map,
                Err(e) => resolve_value(vars.deep_view(), value.deep_view(), name@) == Err::<
                    ValueV,
                    ResErrV,
                >(e.deep_view()) && *final(self) == *old(self),
            },
    {
        match resolve_value_in(vars, value, name) {
            Ok(rv) => {
                self.add_variable(name.clone(), rv);
                Ok(())
            },
            Err(e) => Err(e),
        }
    }

    /// Resolve one pair against the resolved variable map, in context
    /// `ctx`: the pair's key with its concrete value.
    pub fn process_pair(&self, key: &String, value: &Value, ctx: &String) -> (r: Result<
        (String, Value),
        ResolveError,
    >)
        ensures
            match r {
                Ok(kv) => resolve_value(self.variable_map.deep_view(), value.deep_view(), ctx@)
                    == Ok::<ValueV, ResErrV>(kv.1.deep_view()) && kv.0@ == key@,
                Err(e) => resolve_value(self.variable_map.deep_view(), value.deep_view(), ctx@)
                    == Err::<ValueV, ResErrV>(e.deep_view()),
            },
    {
        match resolve_value_in(&self.variable_map, value, ctx) {
            Ok(rv) => Ok((key.clone(), rv)),
            Err(e) => Err(e),
        }
    }

    /// Resolve one `&Identifier: weight` reference line, exactly as a pair.
    pub fn process_reference(&self, name: &String, weight: &Value, ctx: &String) -> (r: Result<
        (String, Value),
        ResolveError,
    >)
        ensures
            match r {
                Ok(kv) => resolve_value(self.variable_map.deep_view(), weight.deep_view(), ctx@)
                    == Ok::<ValueV, ResErrV>(kv.1.deep_view()) && kv.0@ == name@,
                Err(e) => resolve_value(self.variable_map.deep_view(), weight.deep_view(), ctx@)
                    == Err::<ValueV, ResErrV>(e.deep_view()),
            },
    {
        self.process_pair(name, weight, ctx)
    }

    /// Resolve a pair map against the resolved variable map, in context
    /// `ctx`.
    fn process_pairs(&self, pairs: &KvMap<Value>, ctx: &String) -> (r: Result<
        KvMap<Value>,
        ResolveError,
    >)
        ensures
            match r {
                Ok(m) => resolve_pairs(
                    self.variable_map.deep_view(),
                    pairs.deep_view(),
                    pairs.deep_view().len() as int,
                    ctx@,
                ) == Ok::<Seq<(Seq<char>, ValueV)>, ResErrV>(m.deep_view()),
                Err(e) => resolve_pairs(
                    self.variable_map.deep_view(),
                    pairs.deep_view(),
                    pairs.deep_view().len() as int,
                    ctx@,
                ) == Err::<Seq<(Seq<char>, ValueV)>, ResErrV>(e.deep_view()),
            },
    {
        let ghost vs = self.variable_map.deep_view();
        let ghost ps = pairs.deep_view();
        let n = pairs.len();
        let mut out: KvMap<Value> = KvMap::new();
        for i in 0..n
            invariant
                vs == self.variable_map.deep_view(),
                ps == pairs.deep_view(),
                n == ps.len(),
                resolve_pairs(vs, ps, i as int, ctx@) == Ok::<Seq<(Seq<char>, ValueV)>, ResErrV>(
                    out.deep_view(),
                ),
        {
            let key = pairs.key_at(i);
            let value = pairs.val_at(i);
            match self.process_pair(key, value, ctx) {
                Ok((k, v)) => {
                    out.insert(k, v);
                },
                Err(e) => {
                    proof {
                        assert(resolve_pairs(vs, ps, i + 1, ctx@) == Err::<
                            Seq<(Seq<char>, ValueV)>,
                            ResErrV,
                        >(e.deep_view()));
                        lemma_resolve_pairs_err(vs, ps, i + 1, ps.len() as int, ctx@);
                    }
                    return Err(e);
                },
            }
        }
        Ok(out)
    }

    /// Resolve a block against the resolved variable map: its pairs in the
    /// context of its own name, its children recursively.
    #[verifier::loop_isolation(false)]
    pub fn process_block(&self, b: &Block) -> (r: Result<Block, ResolveError>)
        ensures
            match r {
                Ok(rb) => resolve_block(self.variable_map.deep_view(), b.deep_view()) == Ok::<
                    BlockV,
                    ResErrV,
                >(rb.deep_view()),
                Err(e) => resolve_block(self.variable_map.deep_view(), b.deep_view()) == Err::<
                    BlockV,
                    ResErrV,
                >(e.deep_view()),
            },
        decreases b.deep_view(), 1int,
    {
        let ghost vs = self.variable_map.deep_view();
        let ghost bv = b.deep_view();
        let ps = match self.process_pairs(&b.pairs, &b.id) {
            Ok(m) => m,
            Err(e) => {
                return Err(e);
            },
        };
        let n = b.blocks.len();
        let mut out: BlockMap = BlockMap::new();
        for i in 0..n
            invariant
                vs == self.variable_map.deep_view(),
                bv == b.deep_view(),
                n == bv.blocks.len(),
                resolve_blocks(vs, bv.blocks, i as int) == Ok::<
                    Seq<(Seq<char>, BlockV)>,
                    ResErrV,
                >(out.deep_view()),
        {
            let key = b.blocks.key_at(i);
            let child = b.blocks.val_at(i);
            proof {
                assert(decreases_to!(bv => bv.blocks));
                assert(decreases_to!(bv.blocks => bv.blocks[i as int]));
                assert(decreases_to!(bv.blocks[i as int] => bv.blocks[i as int].1));
            }
            match self.process_block(child) {
                Ok(rb) => {
                    out.insert(key.clone(), rb);
                },
                Err(e) => {
                    proof {
                        assert(resolve_blocks(vs, bv.blocks, i + 1) == Err::<
                            Seq<(Seq<char>, BlockV)>,
                            ResErrV,
                        >(e.deep_view()));
                        lemma_resolve_blocks_err(
                            vs,
                            bv.blocks,
                            i + 1,
                            bv.blocks.len() as int,
                        );
                    }
                    return Err(e);
                },
            }
        }
        Ok(Block { id: b.id.clone(), pairs: ps, blocks: out })
    }

    /// Resolve an item against the resolved variable map.
    #[verifier::loop_isolation(false)]
    pub fn process_item(&self, it: &Item) -> (r: Result<Item, ResolveError>)
        ensures
            match r {
                Ok(ri) => resolve_item(self.variable_map.deep_view(), it.deep_view()) == Ok::<
                    ItemV,
                    ResErrV,
                >(ri.deep_view()),
                Err(e) => resolve_item(self.variable_map.deep_view(), it.deep_view()) == Err::<
                    ItemV,
                    ResErrV,
                >(e.deep_view()),
            },
    {
        let ghost vs = self.variable_map.deep_view();
        let ghost iv = it.deep_view();
        let ps = match self.process_pairs(&it.pairs, &it.id) {
            Ok(m) => m,
            Err(e) => {
                return Err(e);
            },
        };
        let n = it.blocks.len();
        let mut out: BlockMap = BlockMap::new();
        for i in 0..n
            invariant
                vs == self.variable_map.deep_view(),
                iv == it.deep_view(),
                n == iv.blocks.len(),
                resolve_blocks(vs, iv.blocks, i as int) == Ok::<
                    Seq<(Seq<char>, BlockV)>,
                    ResErrV,
                >(out.deep_view()),
        {
            let key = it.blocks.key_at(i);
            let child = it.blocks.val_at(i);
            match self.process_block(child) {
                Ok(rb) => {
                    out.insert(key.clone(), rb);
                },
                Err(e) => {
                    proof {
                        assert(resolve_blocks(vs, iv.blocks, i + 1) == Err::<
                            Seq<(Seq<char>, BlockV)>,
                            ResErrV,
                        >(e.deep_view()));
                        lemma_resolve_blocks_err(
                            vs,
                            iv.blocks,
                            i + 1,
                            iv.blocks.len() as int,
                        );
                    }
                    return Err(e);
                },
            }
        }
        Ok(Item { id: it.id.clone(), pairs: ps, blocks: out })
    }

    /// Resolve a group against the resolved variable map: pairs, children,
    /// and reference weights.
    #[verifier::loop_isolation(false)]
    pub fn process_group(&self, g: &Group) -> (r: Result<Group, ResolveError>)
        ensures
            match r {
                Ok(rg) => resolve_group(self.variable_map.deep_view(), g.deep_view()) == Ok::<
                    GroupV,
                    ResErrV,
                >(rg.deep_view()),
                Err(e) => resolve_group(self.variable_map.deep_view(), g.deep_view()) == Err::<
                    GroupV,
                    ResErrV,
                >(e.deep_view()),
            },
    {
        let ghost vs = self.variable_map.deep_view();
        let ghost gv = g.deep_view();
        let ps = match self.process_pairs(&g.pairs, &g.id) {
            Ok(m) => m,
            Err(e) => {
                return Err(e);
            },
        };
        let n = g.blocks.len();
        let mut out: BlockMap = BlockMap::new();
        for i in 0..n
            invariant
                vs == self.variable_map.deep_view(),
                gv == g.deep_view(),
                n == gv.blocks.len(),
                resolve_blocks(vs, gv.blocks, i as int) == Ok::<
                    Seq<(Seq<char>, BlockV)>,
                    ResErrV,
                >(out.deep_view()),
        {
            let key = g.blocks.key_at(i);
            let child = g.blocks.val_at(i);
            match self.process_block(child) {
                Ok(rb) => {
                    out.insert(key.clone(), rb);
                },
                Err(e) => {
                    proof {
                        assert(resolve_blocks(vs, gv.blocks, i + 1) == Err::<
                            Seq<(Seq<char>, BlockV)>,
                            ResErrV,
                        >(e.deep_view()));
                        lemma_resolve_blocks_err(
                            vs,
                            gv.blocks,
                            i + 1,
                            gv.blocks.len() as int,
                        );
                    }
                    return Err(e);
                },
            }
        }
        let rs = match self.process_pairs(&g.reference, &g.id) {
            Ok(m) => m,
            Err(e) => {
                return Err(e);
            },
        };
        Ok(Group { id: g.id.clone(), pairs: ps, blocks: out, reference: rs })
    }

    /// Resolve the whole parsed document `d` into this resolver's maps:
    /// variables first, against their raw form; items and groups after,
    /// against the resolved variables.  Whatever the maps held before is
    /// discarded.
    pub fn process_dml(&mut self, d: &Document) -> (r: Result<(), ResolveError>)
        ensures
            match r {
                Ok(()) => spec_resolve(d.deep_view()) == Ok::<DocumentV, ResErrV>(
                    DocumentV {
                        variables: final(self).variable_map.deep_view(),
                        items: final(self).item_map.deep_view(),
                        groups: final(self).group_map.deep_view(),
                    },
                ),
                Err(e) => spec_resolve(d.deep_view()) == Err::<DocumentV, ResErrV>(e.deep_view()),
            },
    {
        let ghost dv = d.deep_view();
        self.variable_map = KvMap::new();
        self.item_map = KvMap::new();
        self.group_map = KvMap::new();
        let nv = d.variables.len();
        for i in 0..nv
            invariant
                dv == d.deep_view(),
                nv == dv.variables.len(),
                self.item_map.deep_view() == Seq::<(Seq<char>, ItemV)>::empty(),
                self.group_map.deep_view() == Seq::<(Seq<char>, GroupV)>::empty(),
                resolve_vars(dv.variables, i as int) == Ok::<Seq<(Seq<char>, ValueV)>, ResErrV>(
                    self.variable_map.deep_view(),
                ),
        {
            let key = d.variables.key_at(i);
            let value = d.variables.val_at(i);
            match self.process_variable(&d.variables, key, value) {
                Ok(()) => {},
                Err(e) => {
                    proof {
                        assert(resolve_vars(dv.variables, i + 1) == Err::<
                            Seq<(Seq<char>, ValueV)>,
                            ResErrV,
                        >(e.deep_view()));
                        lemma_resolve_vars_err(dv.variables, i + 1, dv.variables.len() as int);
                    }
                    return Err(e);
                },
            }
        }
        let ni = d.items.len();
        for i in 0..ni
            invariant
                dv == d.deep_view(),
                ni == dv.items.len(),
                resolve_vars(dv.variables, dv.variables.len() as int) == Ok::<
                    Seq<(Seq<char>, ValueV)>,
                    ResErrV,
                >(self.variable_map.deep_view()),
                self.group_map.deep_view() == Seq::<(Seq<char>, GroupV)>::empty(),
                resolve_items(self.variable_map.deep_view(), dv.items, i as int) == Ok::<
                    Seq<(Seq<char>, ItemV)>,
                    ResErrV,
                >(self.item_map.deep_view()),
        {
            let key = d.items.key_at(i);
            let it = d.items.val_at(i);
            match self.process_item(it) {
                Ok(ri) => {
                    self.item_map.insert(key.clone(), ri);
                },
                Err(e) => {
                    proof {
                        assert(resolve_items(self.variable_map.deep_view(), dv.items, i + 1)
                            == Err::<Seq<(Seq<char>, ItemV)>, ResErrV>(e.deep_view()));
                        lemma_resolve_items_err(
                            self.variable_map.deep_view(),
                            dv.items,
                            i + 1,
                            dv.items.len() as int,
                        );
                    }
                    return Err(e);
                },
            }
        }
        let ng = d.groups.len();
        for i in 0..ng
            invariant
                dv == d.deep_view(),
                ng == dv.groups.len(),
                resolve_vars(dv.variables, dv.variables.len() as int) == Ok::<
                    Seq<(Seq<char>, ValueV)>,
                    ResErrV,
                >(self.variable_map.deep_view()),
                resolve_items(self.variable_map.deep_view(), dv.items, dv.items.len() as int)
                    == Ok::<Seq<(Seq<char>, ItemV)>, ResErrV>(self.item_map.deep_view()),
                resolve_groups(self.variable_map.deep_view(), dv.groups, i as int) == Ok::<
                    Seq<(Seq<char>, GroupV)>,
                    ResErrV,
                >(self.group_map.deep_view()),
        {
            let key = d.groups.key_at(i);
            let gr = d.groups.val_at(i);
            match self.process_group(gr) {
                Ok(rg) => {
                    self.group_map.insert(key.clone(), rg);
                },
                Err(e) => {
                    proof {
                        assert(resolve_groups(self.variable_map.deep_view(), dv.groups, i + 1)
                            == Err::<Seq<(Seq<char>, GroupV)>, ResErrV>(e.deep_view()));
                        lemma_resolve_groups_err(
                            self.variable_map.deep_view(),
                            dv.groups,
                            i + 1,
                            dv.groups.len() as int,
                        );
                    }
                    return Err(e);
                },
            }
        }
        Ok(())
    }

    /// Check every group's references against the declared items and
    /// groups of this resolver's maps.
    pub fn check_references(&self) -> (r: Result<(), ResolveError>)
        ensures
            ({
                let d = DocumentV {
                    variables: self.variable_map.deep_view(),
                    items: self.item_map.deep_view(),
                    groups: self.group_map.deep_view(),
                };
                match r {
                    Ok(()) => check_refs(d, d.groups.len() as int) == Ok::<(), ResErrV>(()),
                    Err(e) => check_refs(d, d.groups.len() as int) == Err::<(), ResErrV>(
                        e.deep_view(),
                    ),
                }
            }),
    {
        let ghost d = DocumentV {
            variables: self.variable_map.deep_view(),
            items: self.item_map.deep_view(),
            groups: self.group_map.deep_view(),
        };
        let ng = self.group_map.len();
        for i in 0..ng
            invariant
                d == (DocumentV {
                    variables: self.variable_map.deep_view(),
                    items: self.item_map.deep_view(),
                    groups: self.group_map.deep_view(),
                }),
                ng == d.groups.len(),
                check_refs(d, i as int) == Ok::<(), ResErrV>(()),
        {
            let g = self.group_map.val_at(i);
            let ghost gv = d.groups[i as int].1;
            let nr = g.reference.len();
            for j in 0..nr
                invariant
                    d == (DocumentV {
                        variables: self.variable_map.deep_view(),
                        items: self.item_map.deep_view(),
                        groups: self.group_map.deep_view(),
                    }),
                    gv == d.groups[i as int].1,
                    i < d.groups.len(),
                    gv == g.deep_view(),
                    nr == gv.reference.len(),
                    check_refs(d, i as int) == Ok::<(), ResErrV>(()),
                    check_group_refs(d, gv, j as int) == Ok::<(), ResErrV>(()),
            {
                let name = g.reference.key_at(j);
                let in_items = self.item_map.contains_key(name);
                let in_groups = self.group_map.contains_key(name);
                if !in_items && !in_groups {
                    let err = ResolveError::DanglingReference {
                        group: g.id.clone(),
                        identifier: name.clone(),
                    };
                    proof {
                        assert(check_group_refs(d, gv, j + 1) == Err::<(), ResErrV>(
                            err.deep_view(),
                        ));
                        lemma_check_group_refs_err(d, gv, j + 1, gv.reference.len() as int);
                        assert(check_refs(d, i + 1) == Err::<(), ResErrV>(err.deep_view()));
                        lemma_check_refs_err(d, i + 1, d.groups.len() as int);
                    }
                    return Err(err);
                }
            }
        }
        Ok(())
    }
}

/// Resolve a parsed document into a new, fully concrete document.
pub fn resolve(d: &Document) -> (r: Result<Document, ResolveError>)
    ensures
        match r {
            Ok(rd) => spec_resolve(d.deep_view()) == Ok::<DocumentV, ResErrV>(rd.deep_view()),
            Err(e) => spec_resolve(d.deep_view()) == Err::<DocumentV, ResErrV>(e.deep_view()),
        },
{
    let mut p = Processer::new();
    match p.process_dml(d) {
        Ok(()) => Ok(
            Document { variables: p.variable_map, items: p.item_map, groups: p.group_map },
        ),
        Err(e) => Err(e),
    }
}

/// Resolve a parsed document, then demand that every `&Identifier` of
/// every group names a declared item or group.
pub fn resolve_strict(d: &Document) -> (r: Result<Document, ResolveError>)
    ensures
        match r {
            Ok(rd) => spec_resolve_strict(d.deep_view()) == Ok::<DocumentV, ResErrV>(
                rd.deep_view(),
            ),
            Err(e) => spec_resolve_strict(d.deep_view()) == Err::<DocumentV, ResErrV>(
                e.deep_view(),
            ),
        },
{
    let mut p = Processer::new();
    match p.process_dml(d) {
        Ok(()) => {
            match p.check_references() {
                Ok(()) => Ok(
                    Document { variables: p.variable_map, items: p.item_map, groups: p.group_map },
                ),
                Err(e) => Err(e),
            }
        },
        Err(e) => Err(e),
    }
}

} // verus!
