use vstd::prelude::*;
use crate::errors::SsaError;

verus! {

/// Where a value comes from.
pub enum ValueData {
    /// Minted for a normal instruction result, with its type.
    Direct { ty: u32 },
    /// A parameter of `block`, standing for variable `var` at block entry.
    /// Until `wired` is set it is a placeholder whose incoming values are
    /// not known yet; once wired, `ops` holds one incoming value per
    /// predecessor of `block`, in predecessor order.
    Param { block: usize, var: usize, ty: u32, wired: bool, ops: Vec<usize> },
    /// Rewritten to `to` by trivial-merge elimination; `to` is never
    /// itself an alias, so resolving a value is a single step.
    Alias { to: usize },
}

/// How a read of a variable in a block resolves.
#[derive(Clone, Copy)]
pub enum Binding {
    /// Not computed yet.
    Unresolved,
    /// Written directly in the block by `def_var`.
    Defined { val: usize },
    /// Inherited through the predecessors and cached.
    Resolved { val: usize },
}

/// A block of the control-flow graph under construction.
pub struct BlockData {
    /// Predecessors, in the order their edges were declared.
    pub preds: Vec<usize>,
    /// Once sealed, the predecessor list is frozen forever.
    pub sealed: bool,
}

/// The SSA builder: variable table, block graph, binding store and value
/// table of one function build.
pub struct Builder {
    /// Declared type per variable index; `None` marks a gap that was
    /// never declared.
    pub var_types: Vec<Option<u32>>,
    pub blocks: Vec<BlockData>,
    /// `bindings[b][v]`: how variable `v` resolves at the end of block `b`.
    pub bindings: Vec<Vec<Binding>>,
    pub values: Vec<ValueData>,
    /// The block `def_var` and `use_var` work on.
    pub current: Option<usize>,
}

pub open spec fn is_direct(vd: ValueData) -> bool {
    vd matches ValueData::Direct { .. }
}

pub open spec fn is_param(vd: ValueData) -> bool {
    vd matches ValueData::Param { .. }
}

pub open spec fn is_alias(vd: ValueData) -> bool {
    vd matches ValueData::Alias { .. }
}

pub open spec fn vd_block(vd: ValueData) -> int {
    match vd {
        ValueData::Param { block, .. } => block as int,
        _ => 0,
    }
}

pub open spec fn vd_var(vd: ValueData) -> int {
    match vd {
        ValueData::Param { var, .. } => var as int,
        _ => 0,
    }
}

pub open spec fn vd_ty(vd: ValueData) -> u32 {
    match vd {
        ValueData::Direct { ty } => ty,
        ValueData::Param { ty, .. } => ty,
        ValueData::Alias { .. } => 0,
    }
}

pub open spec fn vd_wired(vd: ValueData) -> bool {
    match vd {
        ValueData::Param { wired, .. } => wired,
        _ => false,
    }
}

pub open spec fn vd_ops(vd: ValueData) -> Seq<usize> {
    match vd {
        ValueData::Param { ops, .. } => ops@,
        _ => Seq::empty(),
    }
}

pub open spec fn vd_alias_to(vd: ValueData) -> int {
    match vd {
        ValueData::Alias { to } => to as int,
        _ => 0,
    }
}

/// The value a non-`Unresolved` binding refers to.
pub open spec fn bnd_val(b: Binding) -> int {
    match b {
        Binding::Defined { val } => val as int,
        Binding::Resolved { val } => val as int,
        Binding::Unresolved => 0,
    }
}

/// The representative a value stands for once trivial merges are
/// rewritten: one alias step at most.
pub open spec fn canon_v(vals: Seq<ValueData>, x: int) -> int {
    match vals[x] {
        ValueData::Alias { to } => to as int,
        _ => x,
    }
}

/// `z` is the one incoming value of parameter `p` besides `p` itself:
/// some incoming value resolves to `z`, and every incoming value
/// resolves to `z` or back to `p`.
pub open spec fn sole_survivor_v(vals: Seq<ValueData>, p: int, z: int) -> bool {
    &&& z != p
    &&& exists|j: int| 0 <= j < vd_ops(vals[p]).len() && canon_v(vals, vd_ops(vals[p])[j] as int) == z
    &&& forall|j: int|
        0 <= j < vd_ops(vals[p]).len() ==> (canon_v(vals, #[trigger] vd_ops(vals[p])[j] as int) == z
            || canon_v(vals, vd_ops(vals[p])[j] as int) == p)
}

/// Trivial-merge elimination has nothing left to do: every wired
/// parameter that survives is a genuine merge point.
pub open spec fn collapsed_v(vals: Seq<ValueData>) -> bool {
    forall|p: int, z: int|
        0 <= p < vals.len() && is_param(vals[p]) && vd_wired(vals[p]) ==> !sole_survivor_v(
            vals,
            p,
            z,
        )
}

/// One value's references are consistent with the tables around it.
pub open spec fn value_ok_v(vals: Seq<ValueData>, blocks: Seq<BlockData>, nvars: int, x: int) -> bool {
    match vals[x] {
        ValueData::Direct { .. } => true,
        ValueData::Param { block, var, ty, wired, ops } => {
            &&& (block as int) < blocks.len()
            &&& (var as int) < nvars
            &&& (wired ==> blocks[block as int].sealed)
            &&& (wired ==> ops@.len() == blocks[block as int].preds@.len())
            &&& forall|j: int| 0 <= j < ops@.len() ==> (#[trigger] ops@[j] as int) < vals.len()
        },
        ValueData::Alias { to } => (to as int) < vals.len() && !is_alias(vals[to as int]),
    }
}

/// One binding's reference is in range.
pub open spec fn binding_ok_b(bd: Binding, nvalues: int) -> bool {
    match bd {
        Binding::Unresolved => true,
        Binding::Defined { val } => (val as int) < nvalues,
        Binding::Resolved { val } => (val as int) < nvalues,
    }
}

/// Number of `Unresolved` entries of one row: the termination measure of
/// the resolution recursion counts how many (block, variable) pairs have
/// no cached answer yet.
pub open spec fn row_unres(r: Seq<Binding>) -> nat
    decreases r.len(),
{
    if r.len() == 0 {
        0
    } else {
        row_unres(r.drop_last()) + (if r.last() is Unresolved { 1nat } else { 0nat })
    }
}

/// `Unresolved` entries of the first `b` rows.
pub open spec fn unres_upto(m: Seq<Vec<Binding>>, b: int) -> nat
    decreases b,
{
    if b <= 0 {
        0
    } else {
        unres_upto(m, b - 1) + row_unres(m[b - 1]@)
    }
}

/// Values among the first `n` that are not aliases: the termination
/// measure of the trivial-merge elimination pass.
pub open spec fn nonalias_upto(vals: Seq<ValueData>, n: int) -> nat
    decreases n,
{
    if n <= 0 {
        0
    } else {
        nonalias_upto(vals, n - 1) + (if is_alias(vals[n - 1]) { 0nat } else { 1nat })
    }
}

impl Builder {
    pub open spec fn nvars(self) -> int {
        self.var_types@.len() as int
    }

    pub open spec fn nblocks(self) -> int {
        self.blocks@.len() as int
    }

    pub open spec fn nvalues(self) -> int {
        self.values@.len() as int
    }

    pub open spec fn spec_binding(self, b: int, v: int) -> Binding {
        self.bindings@[b]@[v]
    }

    pub open spec fn canon(self, x: int) -> int {
        canon_v(self.values@, x)
    }

    /// The value a read of `v` at the end of `b` observes, if one is
    /// cached, already resolved to its representative.
    pub open spec fn cached_val(self, b: int, v: int) -> Option<int> {
        match self.bindings@[b]@[v] {
            Binding::Defined { val } => Some(canon_v(self.values@, val as int)),
            Binding::Resolved { val } => Some(canon_v(self.values@, val as int)),
            Binding::Unresolved => None,
        }
    }

    /// A placeholder parameter whose incoming values are not wired yet.
    pub open spec fn pending_param(self, x: int) -> bool {
        is_param(self.values@[x]) && !vd_wired(self.values@[x])
    }

    /// A value that emitted code may refer to: a minted value or a block
    /// parameter that has its incoming values.
    pub open spec fn concrete(self, x: int) -> bool {
        is_direct(self.values@[x]) || (is_param(self.values@[x]) && vd_wired(self.values@[x]))
    }

    pub open spec fn sole_survivor(self, p: int, z: int) -> bool {
        sole_survivor_v(self.values@, p, z)
    }

    pub open spec fn collapsed(self) -> bool {
        collapsed_v(self.values@)
    }

    /// Structural well-formedness: consistent table sizes, in-range
    /// references, flat aliases, and wired parameters that belong to a
    /// sealed block with one incoming value per predecessor.
    pub open spec fn wf(self) -> bool {
        &&& self.bindings@.len() == self.blocks@.len()
        &&& forall|b: int|
            0 <= b < self.blocks@.len() ==> (#[trigger] self.bindings@[b])@.len()
                == self.var_types@.len()
        &&& forall|b: int, j: int|
            0 <= b < self.blocks@.len() && 0 <= j < self.blocks@[b].preds@.len() ==> (
            #[trigger] self.blocks@[b].preds@[j] as int) < self.blocks@.len()
        &&& forall|x: int|
            0 <= x < self.values@.len() ==> #[trigger] value_ok_v(
                self.values@,
                self.blocks@,
                self.var_types@.len() as int,
                x,
            )
        &&& forall|b: int, v: int|
            0 <= b < self.bindings@.len() && 0 <= v < self.bindings@[b]@.len() ==> binding_ok_b(
                #[trigger] self.bindings@[b]@[v],
                self.values@.len() as int,
            )
        &&& forall|x: int|
            0 <= x < self.values@.len() && is_param(#[trigger] self.values@[x])
                ==> self.var_types@[vd_var(self.values@[x])] is Some
        &&& (self.current matches Some(c) ==> (c as int) < self.blocks@.len())
    }

    /// Unresolved (block, variable) pairs: what the resolution recursion
    /// shrinks.
    pub open spec fn unres(self) -> nat {
        unres_upto(self.bindings@, self.nblocks())
    }

    /// The declared type of a variable, if any.
    pub open spec fn var_ty(self, v: int) -> Option<u32> {
        if 0 <= v < self.nvars() {
            self.var_types@[v]
        } else {
            None
        }
    }

    /// The type of a value, read at its representative.
    pub open spec fn ty_of(self, x: int) -> u32 {
        vd_ty(self.values@[canon_v(self.values@, x)])
    }
}

/// Appending a value that is not a wired parameter cannot make any
/// surviving parameter trivial.
proof fn lemma_append_keeps_collapsed(vals: Seq<ValueData>, nv: ValueData)
    requires
        collapsed_v(vals),
        !(is_param(nv) && vd_wired(nv)),
        forall|x: int, j: int|
            0 <= x < vals.len() && 0 <= j < vd_ops(vals[x]).len() ==> (#[trigger] vd_ops(
                vals[x],
            )[j] as int) < vals.len(),
    ensures
        collapsed_v(vals.push(nv)),
{
    let w = vals.push(nv);
    assert forall|p: int, z: int|
        0 <= p < w.len() && is_param(w[p]) && vd_wired(w[p]) implies !sole_survivor_v(w, p, z) by {
        assert(p < vals.len());
        assert(w[p] == vals[p]);
        if sole_survivor_v(w, p, z) {
            assert forall|j: int| 0 <= j < vd_ops(vals[p]).len() implies (canon_v(
                vals,
                #[trigger] vd_ops(vals[p])[j] as int,
            ) == z || canon_v(vals, vd_ops(vals[p])[j] as int) == p) by {
                let op = vd_ops(vals[p])[j] as int;
                assert(op < vals.len());
                assert(w[op] == vals[op]);
                assert(canon_v(w, vd_ops(w[p])[j] as int) == z || canon_v(
                    w,
                    vd_ops(w[p])[j] as int,
                ) == p);
            }
            let j0 = choose|j: int|
                0 <= j < vd_ops(w[p]).len() && canon_v(w, vd_ops(w[p])[j] as int) == z;
            let op0 = vd_ops(vals[p])[j0] as int;
            assert(op0 < vals.len());
            assert(w[op0] == vals[op0]);
            assert(canon_v(vals, op0) == z);
            assert(sole_survivor_v(vals, p, z));
            assert(false);
        }
    }
}

impl Builder {
    /// An empty build: no variables, no blocks, no values, no current
    /// block.
    pub fn new() -> (s: Builder)
        ensures
            s.wf(),
            s.collapsed(),
            s.nvars() == 0,
            s.nblocks() == 0,
            s.nvalues() == 0,
            s.current is None,
    {
        Builder {
            var_types: Vec::new(),
            blocks: Vec::new(),
            bindings: Vec::new(),
            values: Vec::new(),
            current: None,
        }
    }

    /// Mints a fresh value of type `ty`, as the surrounding IR layer does
    /// for each instruction result.
    pub fn mint_value(&mut self, ty: u32) -> (x: usize)
        requires
            old(self).wf(),
        ensures
            final(self).wf(),
            old(self).collapsed() ==> final(self).collapsed(),
            x as int == old(self).nvalues(),
            final(self).values@ == old(self).values@.push(ValueData::Direct { ty }),
            final(self).blocks@ == old(self).blocks@,
            final(self).bindings@ == old(self).bindings@,
            final(self).var_types@ == old(self).var_types@,
            final(self).current == old(self).current,
            final(self).ty_of(x as int) == ty,
    {
        let x = self.values.len();
        self.values.push(ValueData::Direct { ty });
        proof {
            let nvars = self.var_types@.len() as int;
            assert forall|y: int| 0 <= y < self.values@.len() implies #[trigger] value_ok_v(
                self.values@,
                self.blocks@,
                nvars,
                y,
            ) by {
                if y < old(self).values@.len() {
                    assert(value_ok_v(old(self).values@, self.blocks@, nvars, y));
                    assert(self.values@[y] == old(self).values@[y]);
                }
            }
            assert forall|y: int|
                0 <= y < self.values@.len() && is_param(#[trigger] self.values@[y])
                    implies self.var_types@[vd_var(self.values@[y])] is Some by {
                if y < old(self).values@.len() {
                    assert(self.values@[y] == old(self).values@[y]);
                }
            }
            if old(self).collapsed() {
                assert forall|y: int, j: int|
                    0 <= y < old(self).values@.len() && 0 <= j < vd_ops(old(self).values@[y]).len()
                        implies (#[trigger] vd_ops(old(self).values@[y])[j] as int) < old(self).values@.len() by {
                    assert(value_ok_v(
                        old(self).values@,
                        old(self).blocks@,
                        old(self).var_types@.len() as int,
                        y,
                    ));
                }
                lemma_append_keeps_collapsed(old(self).values@, ValueData::Direct { ty });
            }
        }
        x
    }

    /// Declares `var` with type `ty`: idempotent on the same type, an
    /// error on a different one.
    pub fn declare_var(&mut self, var: usize, ty: u32) -> (r: Result<(), SsaError>)
        requires
            old(self).wf(),
        ensures
            final(self).wf(),
            old(self).collapsed() ==> final(self).collapsed(),
            r is Err <==> (old(self).var_ty(var as int) matches Some(t) && t != ty),
            r is Err ==> r == Result::<(), SsaError>::Err(SsaError::TypeConflict) && *final(self)
                == *old(self),
            r is Ok ==> final(self).var_ty(var as int) == Some(ty),
            forall|w: int| w != var as int ==> final(self).var_ty(w) == old(self).var_ty(w),
            final(self).nvars() >= old(self).nvars(),
            final(self).blocks@ == old(self).blocks@,
            final(self).values@ == old(self).values@,
            final(self).current == old(self).current,
            forall|b: int, w: int|
                0 <= b < old(self).nblocks() && 0 <= w < old(self).nvars() ==> final(self).spec_binding(b, w) == old(self).spec_binding(b, w),
            forall|b: int, w: int|
                0 <= b < final(self).nblocks() && old(self).nvars() <= w < final(self).nvars()
                    ==> final(self).spec_binding(b, w) is Unresolved,
            final(self).unres() >= old(self).unres(),
    {
        let ghost entry = *old(self);
        if var < self.var_types.len() {
            let known = self.var_types[var];
            match known {
                Some(t) => {
                    if t == ty {
                        return Ok(());
                    } else {
                        return Err(SsaError::TypeConflict);
                    }
                },
                None => {
                    self.var_types[var] = Some(ty);
                    proof {
                        let nvars = self.var_types@.len() as int;
                        assert forall|y: int| 0 <= y < self.values@.len()
                            implies #[trigger] value_ok_v(
                            self.values@,
                            self.blocks@,
                            nvars,
                            y,
                        ) by {
                            assert(value_ok_v(entry.values@, entry.blocks@, nvars, y));
                        }
                        assert forall|y: int|
                            0 <= y < self.values@.len() && is_param(#[trigger] self.values@[y])
                                implies self.var_types@[vd_var(self.values@[y])] is Some by {
                            assert(value_ok_v(entry.values@, entry.blocks@, nvars, y));
                            let w = vd_var(entry.values@[y]);
                            assert(0 <= w < nvars);
                            assert(entry.var_types@[w] is Some);
                            assert(w != var as int);
                            assert(self.var_types@[w] == entry.var_types@[w]);
                        }
                    }
                    return Ok(());
                },
            }
        }
        // Grow the variable table up to and including `var`.
        while self.var_types.len() < var
            invariant
                self.var_types@.len() <= var as int,
                self.blocks@ == entry.blocks@,
                self.bindings@ == entry.bindings@,
                self.values@ == entry.values@,
                self.current == entry.current,
                forall|w: int|
                    0 <= w < entry.nvars() ==> self.var_types@[w] == entry.var_types@[w],
                forall|w: int| entry.nvars() <= w < self.nvars() ==> self.var_types@[w] is None,
                entry.nvars() <= self.nvars(),
            decreases var as int - self.var_types@.len(),
        {
            self.var_types.push(None);
        }
        self.var_types.push(Some(ty));
        // Give every block a column for the new variables.
        let ghost fin_vt = self.var_types@;
        let ghost oldnv = entry.nvars();
        let nvars = self.var_types.len();
        let nblocks = self.blocks.len();
        let mut b: usize = 0;
        while b < nblocks
            invariant
                nblocks as int == self.nblocks(),
                nvars as int == self.nvars(),
                b <= nblocks,
                oldnv < nvars as int,
                self.blocks@ == entry.blocks@,
                self.values@ == entry.values@,
                self.var_types@ == fin_vt,
                self.current == entry.current,
                self.bindings@.len() == nblocks as int,
                entry.bindings@.len() == nblocks as int,
                forall|bb: int|
                    b as int <= bb < nblocks as int ==> #[trigger] self.bindings@[bb]
                        == entry.bindings@[bb],
                forall|bb: int|
                    b as int <= bb < nblocks as int ==> (#[trigger] self.bindings@[bb])@.len()
                        == oldnv,
                forall|bb: int|
                    0 <= bb < b as int ==> (#[trigger] self.bindings@[bb])@.len() == nvars as int,
                forall|bb: int, w: int|
                    0 <= bb < b as int && 0 <= w < oldnv ==> #[trigger] self.bindings@[bb]@[w]
                        == entry.bindings@[bb]@[w],
                forall|bb: int, w: int|
                    0 <= bb < b as int && oldnv <= w < nvars as int
                        ==> #[trigger] self.bindings@[bb]@[w] is Unresolved,
            decreases nblocks as int - b as int,
        {
            let ghost snap = self.bindings@;
            while self.bindings[b].len() < nvars
                invariant
                    b < nblocks,
                    nblocks as int == self.nblocks(),
                    self.bindings@.len() == nblocks as int,
                    snap.len() == nblocks as int,
                    self.blocks@ == entry.blocks@,
                    self.values@ == entry.values@,
                    self.var_types@ == fin_vt,
                    self.current == entry.current,
                    nvars as int == self.nvars(),
                    forall|bb: int|
                        0 <= bb < nblocks as int && bb != b as int ==> #[trigger] self.bindings@[bb]
                            == snap[bb],
                    self.bindings@[b as int]@.len() <= nvars as int,
                    snap[b as int]@.len() <= self.bindings@[b as int]@.len(),
                    forall|w: int|
                        0 <= w < snap[b as int]@.len() ==> #[trigger] self.bindings@[b as int]@[w]
                            == snap[b as int]@[w],
                    forall|w: int|
                        snap[b as int]@.len() <= w < self.bindings@[b as int]@.len()
                            ==> #[trigger] self.bindings@[b as int]@[w] is Unresolved,
                decreases nvars as int - self.bindings@[b as int]@.len(),
            {
                self.bindings[b].push(Binding::Unresolved);
            }
            b += 1;
        }
        proof {
            assert forall|y: int| 0 <= y < self.values@.len() implies #[trigger] value_ok_v(
                self.values@,
                self.blocks@,
                nvars as int,
                y,
            ) by {
                assert(value_ok_v(entry.values@, entry.blocks@, entry.var_types@.len() as int, y));
            }
            assert forall|bb: int, v: int|
                0 <= bb < self.bindings@.len() && 0 <= v < self.bindings@[bb]@.len()
                    implies binding_ok_b(
                #[trigger] self.bindings@[bb]@[v],
                self.values@.len() as int,
            ) by {
                if v < oldnv {
                    assert(self.bindings@[bb]@[v] == entry.bindings@[bb]@[v]);
                    assert(binding_ok_b(entry.bindings@[bb]@[v], entry.values@.len() as int));
                }
            }
            assert forall|y: int|
                0 <= y < self.values@.len() && is_param(#[trigger] self.values@[y])
                    implies self.var_types@[vd_var(self.values@[y])] is Some by {
                assert(value_ok_v(entry.values@, entry.blocks@, entry.var_types@.len() as int, y));
                assert(entry.var_types@[vd_var(entry.values@[y])] is Some);
                assert(self.var_types@[vd_var(self.values@[y])] == entry.var_types@[vd_var(
                    entry.values@[y],
                )]);
            }
            lemma_unres_grow(entry, *self);
        }
        Ok(())
    }

    /// Creates a fresh block with no predecessors, unsealed.
    pub fn create_block(&mut self) -> (b: usize)
        requires
            old(self).wf(),
        ensures
            final(self).wf(),
            old(self).collapsed() ==> final(self).collapsed(),
            b as int == old(self).nblocks(),
            final(self).nblocks() == old(self).nblocks() + 1,
            final(self).blocks@[b as int].preds@.len() == 0,
            !final(self).blocks@[b as int].sealed,
            forall|bb: int|
                0 <= bb < old(self).nblocks() ==> final(self).blocks@[bb] == old(self).blocks@[bb],
            final(self).values@ == old(self).values@,
            final(self).var_types@ == old(self).var_types@,
            final(self).current == old(self).current,
            forall|bb: int, v: int|
                0 <= bb < old(self).nblocks() && 0 <= v < old(self).nvars() ==> final(self).spec_binding(bb, v) == old(self).spec_binding(bb, v),
            forall|v: int|
                0 <= v < final(self).nvars() ==> final(self).spec_binding(b as int, v)
                    is Unresolved,
    {
        let b = self.blocks.len();
        self.blocks.push(BlockData { preds: Vec::new(), sealed: false });
        let nvars = self.var_types.len();
        let mut row: Vec<Binding> = Vec::new();
        while row.len() < nvars
            invariant
                row@.len() <= nvars as int,
                forall|w: int| 0 <= w < row@.len() ==> #[trigger] row@[w] is Unresolved,
            decreases nvars as int - row@.len(),
        {
            row.push(Binding::Unresolved);
        }
        self.bindings.push(row);
        proof {
            assert forall|y: int| 0 <= y < self.values@.len() implies #[trigger] value_ok_v(
                self.values@,
                self.blocks@,
                nvars as int,
                y,
            ) by {
                assert(value_ok_v(old(self).values@, old(self).blocks@, nvars as int, y));
                assert(self.values@[y] == old(self).values@[y]);
                if is_param(self.values@[y]) {
                    assert(self.blocks@[vd_block(self.values@[y])] == old(self).blocks@[vd_block(
                        self.values@[y],
                    )]);
                }
            }
        }
        b
    }

    /// Makes `b` the block that `def_var` and `use_var` work on.
    pub fn switch_to_block(&mut self, b: usize)
        requires
            old(self).wf(),
            (b as int) < old(self).nblocks(),
        ensures
            final(self).wf(),
            old(self).collapsed() ==> final(self).collapsed(),
            final(self).blocks@ == old(self).blocks@,
            final(self).values@ == old(self).values@,
            final(self).bindings@ == old(self).bindings@,
            final(self).var_types@ == old(self).var_types@,
            final(self).current == Some(b),
    {
        self.current = Some(b);
    }

    /// Declares the control-flow edge `from -> target`, as emitting a
    /// branch or jump into `target` does. The predecessor list of a
    /// sealed block is frozen: such an edge is refused.
    pub fn declare_edge(&mut self, target: usize, from: usize) -> (r: Result<(), SsaError>)
        requires
            old(self).wf(),
            (target as int) < old(self).nblocks(),
            (from as int) < old(self).nblocks(),
        ensures
            final(self).wf(),
            old(self).collapsed() ==> final(self).collapsed(),
            r is Ok <==> !old(self).blocks@[target as int].sealed,
            r is Err ==> r == Result::<(), SsaError>::Err(SsaError::SealedBlock) && *final(self)
                == *old(self),
            r is Ok ==> final(self).blocks@[target as int].preds@ == old(self).blocks@[target as int].preds@.push(from) && final(self).blocks@[target as int].sealed
                == old(self).blocks@[target as int].sealed,
            forall|bb: int|
                0 <= bb < old(self).nblocks() && bb != target as int ==> final(self).blocks@[bb]
                    == old(self).blocks@[bb],
            final(self).nblocks() == old(self).nblocks(),
            final(self).values@ == old(self).values@,
            final(self).bindings@ == old(self).bindings@,
            final(self).var_types@ == old(self).var_types@,
            final(self).current == old(self).current,
    {
        if self.blocks[target].sealed {
            return Err(SsaError::SealedBlock);
        }
        self.blocks[target].preds.push(from);
        proof {
            let nvars = self.var_types@.len() as int;
            assert forall|y: int| 0 <= y < self.values@.len() implies #[trigger] value_ok_v(
                self.values@,
                self.blocks@,
                nvars,
                y,
            ) by {
                assert(value_ok_v(old(self).values@, old(self).blocks@, nvars, y));
                // A wired parameter's block is sealed, and sealed blocks
                // refuse new edges, so no wired parameter belongs to
                // `target`: every op count still matches its block.
                if is_param(self.values@[y]) && vd_block(self.values@[y]) != target as int {
                    assert(self.blocks@[vd_block(self.values@[y])] == old(self).blocks@[vd_block(
                        self.values@[y],
                    )]);
                }
            }
        }
        Ok(())
    }
}

/// Pointwise binding progress never raises the number of unresolved
/// entries of one row.
proof fn lemma_row_unres_le(r1: Seq<Binding>, r2: Seq<Binding>)
    requires
        r1.len() == r2.len(),
        forall|j: int| 0 <= j < r2.len() && (#[trigger] r2[j]) is Unresolved ==> r1[j] is Unresolved,
    ensures
        row_unres(r2) <= row_unres(r1),
    decreases r1.len(),
{
    if r1.len() > 0 {
        assert forall|j: int|
            0 <= j < r2.drop_last().len() && (#[trigger] r2.drop_last()[j]) is Unresolved
                implies r1.drop_last()[j] is Unresolved by {
            assert(r2.drop_last()[j] == r2[j]);
            assert(r1.drop_last()[j] == r1[j]);
        }
        lemma_row_unres_le(r1.drop_last(), r2.drop_last());
    }
}

/// A binding table that keeps every `Unresolved` entry of a smaller one
/// counts at least as many unresolved entries over the smaller extent.
proof fn lemma_unres_upto_grow(m1: Seq<Vec<Binding>>, m2: Seq<Vec<Binding>>, b: int)
    requires
        0 <= b <= m1.len(),
        m1.len() <= m2.len(),
        forall|bb: int| 0 <= bb < m1.len() ==> (#[trigger] m1[bb])@.len() <= m2[bb]@.len(),
        forall|bb: int, w: int|
            0 <= bb < m1.len() && 0 <= w < m1[bb]@.len() && (#[trigger] m1[bb]@[w]) is Unresolved
                ==> m2[bb]@[w] is Unresolved,
    ensures
        unres_upto(m1, b) <= unres_upto(m2, b),
    decreases b,
{
    if b > 0 {
        lemma_unres_upto_grow(m1, m2, b - 1);
        lemma_row_unres_prefix(m2[b - 1]@, m1[b - 1]@.len() as int);
        lemma_row_unres_le_partial(m1[b - 1]@, m2[b - 1]@);
    }
}

/// The unresolved count of a prefix is at most the count of the row.
proof fn lemma_row_unres_prefix(r: Seq<Binding>, n: int)
    requires
        0 <= n <= r.len(),
    ensures
        row_unres(r.take(n)) <= row_unres(r),
    decreases r.len(),
{
    if n < r.len() {
        if r.len() > 0 {
            assert(r.take(r.len() as int - 1) =~= r.drop_last());
            lemma_row_unres_prefix(r.drop_last(), n);
            assert(r.drop_last().take(n) =~= r.take(n));
        }
    } else {
        assert(r.take(n) =~= r);
    }
}

/// Row-wise: entries that stay `Unresolved` in the shorter row are
/// `Unresolved` in the longer row, so the count can only grow.
proof fn lemma_row_unres_le_partial(r1: Seq<Binding>, r2: Seq<Binding>)
    requires
        r1.len() <= r2.len(),
        forall|w: int|
            0 <= w < r1.len() && (#[trigger] r1[w]) is Unresolved ==> r2[w] is Unresolved,
    ensures
        row_unres(r1) <= row_unres(r2),
{
    assert forall|w: int|
        0 <= w < r1.len() && (#[trigger] r1[w]) is Unresolved implies r2.take(
        r1.len() as int,
    )[w] is Unresolved by {
        assert(r2.take(r1.len() as int)[w] == r2[w]);
    }
    lemma_row_unres_le(r2.take(r1.len() as int), r1);
    lemma_row_unres_prefix(r2, r1.len() as int);
}

/// Growing the tables (new variables, new blocks) never loses unresolved
/// entries.
proof fn lemma_unres_grow(s1: Builder, s2: Builder)
    requires
        s1.nblocks() <= s2.nblocks(),
        s1.bindings@.len() == s1.nblocks(),
        s2.bindings@.len() == s2.nblocks(),
        forall|bb: int|
            0 <= bb < s1.nblocks() ==> (#[trigger] s1.bindings@[bb])@.len()
                <= s2.bindings@[bb]@.len(),
        forall|bb: int, w: int|
            0 <= bb < s1.nblocks() && 0 <= w < s1.bindings@[bb]@.len() && (
            #[trigger] s1.bindings@[bb]@[w]) is Unresolved ==> s2.bindings@[bb]@[w] is Unresolved,
    ensures
        s1.unres() <= s2.unres(),
{
    lemma_unres_upto_grow(s1.bindings@, s2.bindings@, s1.nblocks());
    lemma_unres_upto_mono(s2.bindings@, s1.nblocks(), s2.nblocks());
}

/// Counting more rows only adds.
proof fn lemma_unres_upto_mono(m: Seq<Vec<Binding>>, b1: int, b2: int)
    requires
        0 <= b1 <= b2,
    ensures
        unres_upto(m, b1) <= unres_upto(m, b2),
    decreases b2 - b1,
{
    if b1 < b2 {
        lemma_unres_upto_mono(m, b1, b2 - 1);
    }
}

/// Entries with the same alias-ness count the same.
proof fn lemma_nonalias_same(v1: Seq<ValueData>, v2: Seq<ValueData>, n: int)
    requires
        0 <= n <= v1.len(),
        n <= v2.len(),
        forall|x: int| 0 <= x < n ==> is_alias(#[trigger] v2[x]) == is_alias(v1[x]),
    ensures
        nonalias_upto(v1, n) == nonalias_upto(v2, n),
    decreases n,
{
    if n > 0 {
        lemma_nonalias_same(v1, v2, n - 1);
    }
}

/// Turning one non-alias entry into an alias, while every other entry
/// keeps its alias-ness, lowers the count by one.
proof fn lemma_nonalias_flip(v1: Seq<ValueData>, v2: Seq<ValueData>, p: int, n: int)
    requires
        v1.len() == v2.len(),
        0 <= p < n <= v1.len(),
        forall|x: int| 0 <= x < v1.len() && x != p ==> is_alias(#[trigger] v2[x]) == is_alias(v1[x]),
        !is_alias(v1[p]),
        is_alias(v2[p]),
    ensures
        nonalias_upto(v2, n) + 1 == nonalias_upto(v1, n),
    decreases n,
{
    if p == n - 1 {
        lemma_nonalias_same(v1, v2, n - 1);
    } else {
        lemma_nonalias_flip(v1, v2, p, n - 1);
    }
}

/// The binding is a cached resolution pointing at value `x`.
pub open spec fn resolved_to(bd: Binding, x: int) -> bool {
    bd matches Binding::Resolved { val } && val as int == x
}

/// How one value may change while variables are resolved: a minted value
/// is frozen; a parameter keeps its identity, may gain its wiring, and
/// may be rewritten away; a rewritten value stays rewritten (its target
/// may move).
pub open spec fn value_evolves(o: ValueData, n: ValueData) -> bool {
    match o {
        ValueData::Direct { .. } => n == o,
        ValueData::Param { .. } => (is_param(n) && vd_block(n) == vd_block(o) && vd_var(n)
            == vd_var(o) && vd_ty(n) == vd_ty(o) && (vd_wired(o) ==> n == o)) || is_alias(n),
        ValueData::Alias { .. } => is_alias(n),
    }
}

/// How the whole state may change while variables are resolved: the
/// graph, the variable table and the current block stay; values and
/// cached bindings only progress; and resolving a value commutes with
/// the change (what a value stood for, it still stands for).
pub open spec fn evolves(a: Builder, b: Builder) -> bool {
    &&& b.var_types@ == a.var_types@
    &&& b.blocks@ == a.blocks@
    &&& b.current == a.current
    &&& a.values@.len() <= b.values@.len()
    &&& b.bindings@.len() == a.bindings@.len()
    &&& forall|bb: int|
        0 <= bb < a.bindings@.len() ==> (#[trigger] b.bindings@[bb])@.len()
            == a.bindings@[bb]@.len()
    &&& forall|bb: int, vv: int|
        0 <= bb < a.bindings@.len() && 0 <= vv < a.bindings@[bb]@.len() && !((
        #[trigger] a.bindings@[bb]@[vv]) is Unresolved) ==> b.bindings@[bb]@[vv]
            == a.bindings@[bb]@[vv]
    &&& forall|x: int|
        0 <= x < a.values@.len() ==> value_evolves(#[trigger] a.values@[x], b.values@[x])
    &&& forall|x: int|
        0 <= x < a.values@.len() ==> canon_v(b.values@, #[trigger] canon_v(a.values@, x))
            == canon_v(b.values@, x)
}

/// Evolution is reflexive on a well-formed state.
proof fn lemma_evolves_refl(s: Builder)
    requires
        s.wf(),
    ensures
        evolves(s, s),
{
    assert forall|x: int| 0 <= x < s.values@.len() implies value_evolves(
        #[trigger] s.values@[x],
        s.values@[x],
    ) by {}
    assert forall|x: int| 0 <= x < s.values@.len() implies canon_v(
        s.values@,
        #[trigger] canon_v(s.values@, x),
    ) == canon_v(s.values@, x) by {
        assert(value_ok_v(s.values@, s.blocks@, s.var_types@.len() as int, x));
    }
}

/// Evolution composes.
proof fn lemma_evolves_trans(a: Builder, b: Builder, c: Builder)
    requires
        a.wf(),
        evolves(a, b),
        evolves(b, c),
    ensures
        evolves(a, c),
{
    assert forall|x: int| 0 <= x < a.values@.len() implies value_evolves(
        #[trigger] a.values@[x],
        c.values@[x],
    ) by {
        assert(value_evolves(a.values@[x], b.values@[x]));
        assert(value_evolves(b.values@[x], c.values@[x]));
    }
    assert forall|x: int| 0 <= x < a.values@.len() implies canon_v(
        c.values@,
        #[trigger] canon_v(a.values@, x),
    ) == canon_v(c.values@, x) by {
        assert(value_ok_v(a.values@, a.blocks@, a.var_types@.len() as int, x));
        assert(canon_v(a.values@, x) < a.values@.len());
        assert(canon_v(c.values@, canon_v(b.values@, canon_v(a.values@, x))) == canon_v(
            c.values@,
            canon_v(a.values@, x),
        ));
        assert(canon_v(b.values@, canon_v(a.values@, x)) == canon_v(b.values@, x));
        assert(canon_v(c.values@, canon_v(b.values@, x)) == canon_v(c.values@, x));
    }
}

/// Replacing one `Unresolved` entry by a resolved one lowers the count
/// of unresolved pairs by exactly one.
proof fn lemma_row_unres_update(r1: Seq<Binding>, r2: Seq<Binding>, v: int)
    requires
        r1.len() == r2.len(),
        0 <= v < r1.len(),
        r2 == r1.update(v, r2[v]),
        r1[v] is Unresolved,
        !(r2[v] is Unresolved),
    ensures
        row_unres(r2) + 1 == row_unres(r1),
    decreases r1.len(),
{
    if v == r1.len() - 1 {
        assert(r2.drop_last() =~= r1.drop_last());
    } else {
        assert(r2.drop_last() =~= r1.drop_last().update(v, r2[v]));
        assert(r2.drop_last()[v] == r2[v]);
        lemma_row_unres_update(r1.drop_last(), r2.drop_last(), v);
    }
}

/// Rows that agree as sequences count the same.
proof fn lemma_unres_upto_same(m1: Seq<Vec<Binding>>, m2: Seq<Vec<Binding>>, n: int)
    requires
        0 <= n <= m1.len(),
        n <= m2.len(),
        forall|bb: int| 0 <= bb < n ==> (#[trigger] m2[bb])@ == m1[bb]@,
    ensures
        unres_upto(m1, n) == unres_upto(m2, n),
    decreases n,
{
    if n > 0 {
        lemma_unres_upto_same(m1, m2, n - 1);
    }
}

/// Caching one resolution lowers the count of unresolved pairs by one.
proof fn lemma_unres_cache(m1: Seq<Vec<Binding>>, m2: Seq<Vec<Binding>>, b: int, v: int, n: int)
    requires
        m1.len() == m2.len(),
        0 <= b < n <= m1.len(),
        0 <= v < m1[b]@.len(),
        m2[b]@.len() == m1[b]@.len(),
        forall|bb: int| 0 <= bb < m1.len() && bb != b ==> #[trigger] m2[bb]@ == m1[bb]@,
        m2[b]@ == m1[b]@.update(v, m2[b]@[v]),
        m1[b]@[v] is Unresolved,
        !(m2[b]@[v] is Unresolved),
    ensures
        unres_upto(m2, n) + 1 == unres_upto(m1, n),
    decreases n,
{
    if b == n - 1 {
        lemma_unres_upto_same(m1, m2, n - 1);
        lemma_row_unres_update(m1[b]@, m2[b]@, v);
    } else {
        lemma_unres_cache(m1, m2, b, v, n - 1);
    }
}

/// The survivor relation carries between two value tables with the same
/// entry for the parameter and the same resolution map.
proof fn lemma_sole_transfer(v1: Seq<ValueData>, v2: Seq<ValueData>, q: int, z: int)
    requires
        v1.len() == v2.len(),
        0 <= q < v1.len(),
        vd_ops(v2[q]) == vd_ops(v1[q]),
        forall|y: int| 0 <= y < v1.len() ==> #[trigger] canon_v(v2, y) == canon_v(v1, y),
        forall|j: int|
            0 <= j < vd_ops(v1[q]).len() ==> (#[trigger] vd_ops(v1[q])[j] as int) < v1.len(),
        sole_survivor_v(v2, q, z),
    ensures
        sole_survivor_v(v1, q, z),
{
    assert forall|j: int| 0 <= j < vd_ops(v1[q]).len() implies (canon_v(
        v1,
        #[trigger] vd_ops(v1[q])[j] as int,
    ) == z || canon_v(v1, vd_ops(v1[q])[j] as int) == q) by {
        assert(canon_v(v2, vd_ops(v2[q])[j] as int) == z || canon_v(v2, vd_ops(v2[q])[j] as int)
            == q);
        assert(canon_v(v2, vd_ops(v1[q])[j] as int) == canon_v(v1, vd_ops(v1[q])[j] as int));
    }
    let j0 = choose|j: int| 0 <= j < vd_ops(v2[q]).len() && canon_v(v2, vd_ops(v2[q])[j] as int) == z;
    assert(canon_v(v1, vd_ops(v1[q])[j0] as int) == z);
}

/// Block `d` is one of `c`'s predecessors.
pub open spec fn chain_step(s: Builder, c: int, d: int) -> bool {
    exists|j: int| 0 <= j < s.blocks@[c].preds@.len() && s.blocks@[c].preds@[j] == d
}

/// A chain of blocks that shows a read of `v` has nothing to inherit:
/// starting at the block being read, each block hands over to one of its
/// predecessors, no block on the way holds a cached resolution of `v`,
/// and the chain ends at a sealed block with no predecessors.
pub open spec fn uninit_chain(s: Builder, chain: Seq<int>, v: int) -> bool {
    &&& chain.len() >= 1
    &&& forall|i: int| 0 <= i < chain.len() ==> 0 <= #[trigger] chain[i] < s.nblocks()
    &&& forall|i: int|
        0 <= i < chain.len() ==> s.spec_binding(#[trigger] chain[i], v) is Unresolved
    &&& forall|i: int| 0 <= i < chain.len() - 1 ==> #[trigger] chain_step(s, chain[i], chain[i + 1])
    &&& s.blocks@[chain.last()].sealed
    &&& s.blocks@[chain.last()].preds@.len() == 0
}

/// Reading `v` at the end of `b` can run into a use before any
/// definition: some predecessor path from `b` reaches a sealed entry
/// block with no resolution of `v` anywhere on the way.
pub open spec fn has_uninit_path(s: Builder, b: int, v: int) -> bool {
    exists|chain: Seq<int>| #[trigger] uninit_chain(s, chain, v) && chain[0] == b
}

/// A chain observed after some resolution steps was already a chain
/// before them: the graph does not change, and a binding that is still
/// unresolved was unresolved before.
proof fn lemma_chain_back_evolves(a: Builder, b2: Builder, chain: Seq<int>, v: int)
    requires
        a.wf(),
        evolves(a, b2),
        0 <= v < a.nvars(),
        uninit_chain(b2, chain, v),
    ensures
        uninit_chain(a, chain, v),
{
    assert forall|i: int| 0 <= i < chain.len() implies a.spec_binding(
        #[trigger] chain[i],
        v,
    ) is Unresolved by {
        assert(b2.spec_binding(chain[i], v) is Unresolved);
        assert(a.bindings@[chain[i]]@.len() == a.nvars());
        if !(a.bindings@[chain[i]]@[v] is Unresolved) {
            assert(b2.bindings@[chain[i]]@[v] == a.bindings@[chain[i]]@[v]);
        }
    }
    assert forall|i: int| 0 <= i < chain.len() - 1 implies #[trigger] chain_step(
        a,
        chain[i],
        chain[i + 1],
    ) by {
        assert(chain_step(b2, chain[i], chain[i + 1]));
    }
}

/// A chain that holds after one block was sealed, and that does not end
/// at that block, already held before the flag was set: no predecessor
/// list changed, and the flag only matters at the chain's end.
proof fn lemma_chain_back_seal_flag(a: Builder, b2: Builder, sb: int, chain: Seq<int>, v: int)
    requires
        a.blocks@.len() == b2.blocks@.len(),
        0 <= sb < a.blocks@.len(),
        forall|bb: int| 0 <= bb < a.blocks@.len() && bb != sb ==> #[trigger] b2.blocks@[bb] == a.blocks@[bb],
        b2.blocks@[sb].preds@ == a.blocks@[sb].preds@,
        a.bindings@ == b2.bindings@,
        uninit_chain(b2, chain, v),
        chain.last() != sb,
    ensures
        uninit_chain(a, chain, v),
{
    assert forall|i: int| 0 <= i < chain.len() - 1 implies #[trigger] chain_step(
        a,
        chain[i],
        chain[i + 1],
    ) by {
        assert(chain_step(b2, chain[i], chain[i + 1]));
        let j = choose|j: int|
            0 <= j < b2.blocks@[chain[i]].preds@.len() && b2.blocks@[chain[i]].preds@[j] == chain[i + 1];
        assert(a.blocks@[chain[i]].preds@ == b2.blocks@[chain[i]].preds@);
        assert(0 <= j < a.blocks@[chain[i]].preds@.len() && a.blocks@[chain[i]].preds@[j] == chain[i + 1]);
    }
    assert(a.blocks@[chain.last()] == b2.blocks@[chain.last()]);
}

/// A block whose binding is unresolved, with a predecessor that starts a
/// chain, starts a chain itself.
proof fn lemma_chain_prepend(s: Builder, b: int, chain: Seq<int>, v: int)
    requires
        uninit_chain(s, chain, v),
        0 <= b < s.nblocks(),
        s.spec_binding(b, v) is Unresolved,
        chain_step(s, b, chain[0]),
    ensures
        uninit_chain(s, seq![b] + chain, v),
        (seq![b] + chain)[0] == b,
{
    let c2 = seq![b] + chain;
    assert(c2.len() == chain.len() + 1);
    assert(c2[0] == b);
    assert forall|i: int| 1 <= i < c2.len() implies c2[i] == chain[i - 1] by {}
    assert(c2.last() == chain.last());
    assert forall|i: int| 0 <= i < c2.len() implies 0 <= #[trigger] c2[i] < s.nblocks() by {
        if i >= 1 {
            assert(chain[i - 1] < s.nblocks());
        }
    }
    assert forall|i: int| 0 <= i < c2.len() implies s.spec_binding(
        #[trigger] c2[i],
        v,
    ) is Unresolved by {
        if i >= 1 {
            assert(s.spec_binding(chain[i - 1], v) is Unresolved);
        }
    }
    assert forall|i: int| 0 <= i < c2.len() - 1 implies #[trigger] chain_step(
        s,
        c2[i],
        c2[i + 1],
    ) by {
        if i == 0 {
            assert(c2[1] == chain[0]);
        } else {
            let i0 = i - 1;
            assert(0 <= i0 < chain.len() - 1);
            assert(chain_step(s, chain[i0], chain[i0 + 1]));
            assert(chain[i0 + 1] == chain[i]);
            assert(c2[i] == chain[i0]);
            assert(c2[i + 1] == chain[i]);
        }
    }
}

/// What every resolution step guarantees: well-formedness and the
/// collapsed state are kept, the state only evolves, and no new
/// unresolved pairs appear.
pub open spec fn reads_ok(a: Builder, b: Builder) -> bool {
    &&& b.wf()
    &&& b.collapsed()
    &&& evolves(a, b)
    &&& b.unres() <= a.unres()
}

/// Every parameter created by a resolution step stands for the variable
/// being resolved, and is the cached resolution of its own block.
pub open spec fn new_params_ok(a: Builder, b: Builder, v: int) -> bool {
    forall|x: int|
        a.values@.len() <= x < b.values@.len() && is_param(#[trigger] b.values@[x]) ==> vd_var(
            b.values@[x],
        ) == v && 0 <= vd_block(b.values@[x]) < b.bindings@.len() && resolved_to(
            b.bindings@[vd_block(b.values@[x])]@[v],
            x,
        )
}

/// A placeholder left unwired belongs to an unsealed block, unless it
/// was already there before the step.
pub open spec fn pending_ok(a: Builder, b: Builder) -> bool {
    forall|x: int|
        0 <= x < b.values@.len() && #[trigger] b.pending_param(x) ==> (x < a.values@.len()
            && a.pending_param(x)) || !b.blocks@[vd_block(b.values@[x])].sealed
}

/// Placeholders that were pending before the step are untouched by it.
pub open spec fn pending_kept(a: Builder, b: Builder) -> bool {
    forall|x: int|
        0 <= x < a.values@.len() && #[trigger] a.pending_param(x) ==> b.values@[x] == a.values@[x]
}

impl Builder {
    /// The value `x` currently stands for: itself, unless a trivial merge
    /// rewrote it.
    pub fn resolve_value(&self, x: usize) -> (r: usize)
        requires
            self.wf(),
            (x as int) < self.nvalues(),
        ensures
            r as int == canon_v(self.values@, x as int),
            (r as int) < self.nvalues(),
            !is_alias(self.values@[r as int]),
    {
        proof {
            assert(value_ok_v(self.values@, self.blocks@, self.var_types@.len() as int, x as int));
        }
        match &self.values[x] {
            ValueData::Alias { to } => *to,
            _ => x,
        }
    }

    /// The type of a value, as the variable-table consistency check needs
    /// it.
    pub fn type_of_value(&self, x: usize) -> (t: u32)
        requires
            self.wf(),
            (x as int) < self.nvalues(),
        ensures
            t == self.ty_of(x as int),
    {
        let c = self.resolve_value(x);
        match &self.values[c] {
            ValueData::Direct { ty } => *ty,
            ValueData::Param { ty, .. } => *ty,
            ValueData::Alias { .. } => 0,
        }
    }

    /// How many incoming values a parameter has.
    fn param_num_ops(&self, p: usize) -> (n: usize)
        requires
            self.wf(),
            (p as int) < self.nvalues(),
            is_param(self.values@[p as int]),
        ensures
            n as int == vd_ops(self.values@[p as int]).len(),
    {
        match &self.values[p] {
            ValueData::Param { ops, .. } => ops.len(),
            _ => 0,
        }
    }

    /// The `j`-th incoming value of a parameter.
    fn param_op(&self, p: usize, j: usize) -> (x: usize)
        requires
            self.wf(),
            (p as int) < self.nvalues(),
            is_param(self.values@[p as int]),
            (j as int) < vd_ops(self.values@[p as int]).len(),
        ensures
            x == vd_ops(self.values@[p as int])[j as int],
            (x as int) < self.nvalues(),
    {
        proof {
            assert(value_ok_v(self.values@, self.blocks@, self.var_types@.len() as int, p as int));
        }
        match &self.values[p] {
            ValueData::Param { ops, .. } => ops[j],
            _ => 0,
        }
    }

    /// Looks for the one incoming value of parameter `p` besides `p`
    /// itself: `Some(z)` when the merge is trivial with survivor `z`,
    /// `None` when the parameter is a genuine merge point or is fed by
    /// nothing but itself.
    fn find_survivor(&self, p: usize) -> (r: Option<usize>)
        requires
            self.wf(),
            (p as int) < self.nvalues(),
            is_param(self.values@[p as int]),
        ensures
            r matches Some(z) ==> (z as int) < self.nvalues() && z != p && !is_alias(
                self.values@[z as int],
            ) && sole_survivor_v(self.values@, p as int, z as int),
            r is None ==> forall|z: int| !sole_survivor_v(self.values@, p as int, z),
    {
        let n = self.param_num_ops(p);
        let mut seen: Option<usize> = None;
        let mut multi = false;
        let ghost mut ws: int = 0;
        let ghost mut w1: int = 0;
        let ghost mut w2: int = 0;
        let mut j: usize = 0;
        while j < n
            invariant
                self.wf(),
                (p as int) < self.nvalues(),
                is_param(self.values@[p as int]),
                n as int == vd_ops(self.values@[p as int]).len(),
                j <= n,
                multi ==> 0 <= w1 < j as int && 0 <= w2 < j as int && canon_v(
                    self.values@,
                    vd_ops(self.values@[p as int])[w1] as int,
                ) != p as int && canon_v(self.values@, vd_ops(self.values@[p as int])[w2] as int)
                    != p as int && canon_v(self.values@, vd_ops(self.values@[p as int])[w1] as int)
                    != canon_v(self.values@, vd_ops(self.values@[p as int])[w2] as int),
                !multi ==> (seen matches Some(s) ==> 0 <= ws < j as int && canon_v(
                    self.values@,
                    vd_ops(self.values@[p as int])[ws] as int,
                ) == s as int && s != p && (s as int) < self.nvalues() && !is_alias(
                    self.values@[s as int],
                )),
                !multi ==> (seen matches Some(s) ==> forall|k: int|
                    0 <= k < j as int ==> (canon_v(
                        self.values@,
                        #[trigger] vd_ops(self.values@[p as int])[k] as int,
                    ) == s as int || canon_v(self.values@, vd_ops(self.values@[p as int])[k] as int)
                        == p as int)),
                !multi && seen is None ==> forall|k: int|
                    0 <= k < j as int ==> canon_v(
                        self.values@,
                        #[trigger] vd_ops(self.values@[p as int])[k] as int,
                    ) == p as int,
            decreases n as int - j as int,
        {
            let op = self.param_op(p, j);
            let c = self.resolve_value(op);
            if !multi && c != p {
                match seen {
                    None => {
                        seen = Some(c);
                        proof {
                            ws = j as int;
                        }
                    },
                    Some(s) => {
                        if s != c {
                            proof {
                                w1 = ws;
                                w2 = j as int;
                            }
                            multi = true;
                        }
                    },
                }
            }
            j += 1;
        }
        if multi {
            proof {
                assert forall|z: int| !sole_survivor_v(self.values@, p as int, z) by {
                    if sole_survivor_v(self.values@, p as int, z) {
                        assert(canon_v(self.values@, vd_ops(self.values@[p as int])[w1] as int)
                            == z);
                        assert(canon_v(self.values@, vd_ops(self.values@[p as int])[w2] as int)
                            == z);
                        assert(false);
                    }
                }
            }
            return None;
        }
        match seen {
            None => {
                proof {
                    assert forall|z: int| !sole_survivor_v(self.values@, p as int, z) by {
                        if sole_survivor_v(self.values@, p as int, z) {
                            let j0 = choose|jj: int|
                                0 <= jj < vd_ops(self.values@[p as int]).len() && canon_v(
                                    self.values@,
                                    vd_ops(self.values@[p as int])[jj] as int,
                                ) == z;
                            assert(canon_v(self.values@, vd_ops(self.values@[p as int])[j0] as int)
                                == p as int);
                            assert(false);
                        }
                    }
                }
                None
            },
            Some(s) => Some(s),
        }
    }

    /// Rewrites the trivial parameter `p` to its survivor `z`: `p`
    /// becomes an alias of `z`, and every alias that pointed at `p` is
    /// repointed at `z`, so aliases stay one step deep.
    fn alias_param(&mut self, p: usize, z: usize)
        requires
            old(self).wf(),
            (p as int) < old(self).nvalues(),
            (z as int) < old(self).nvalues(),
            z != p,
            is_param(old(self).values@[p as int]),
            vd_wired(old(self).values@[p as int]),
            !is_alias(old(self).values@[z as int]),
        ensures
            final(self).wf(),
            final(self).values@.len() == old(self).values@.len(),
            final(self).blocks@ == old(self).blocks@,
            final(self).bindings@ == old(self).bindings@,
            final(self).var_types@ == old(self).var_types@,
            final(self).current == old(self).current,
            is_alias(final(self).values@[p as int]),
            vd_alias_to(final(self).values@[p as int]) == z as int,
            forall|x: int|
                0 <= x < old(self).nvalues() && x != p as int ==> final(self).values@[x] == (
                if is_alias(#[trigger] old(self).values@[x]) && vd_alias_to(old(self).values@[x])
                    == p as int {
                    ValueData::Alias { to: z }
                } else {
                    old(self).values@[x]
                }),
            forall|x: int|
                0 <= x < old(self).nvalues() ==> #[trigger] canon_v(final(self).values@, x) == (
                if canon_v(old(self).values@, x) == p as int {
                    z as int
                } else {
                    canon_v(old(self).values@, x)
                }),
            evolves(*old(self), *final(self)),
            pending_kept(*old(self), *final(self)),
    {
        let ghost v0 = self.values@;
        self.values[p] = ValueData::Alias { to: z };
        let n = self.values.len();
        let mut x: usize = 0;
        while x < n
            invariant
                n as int == self.values@.len(),
                self.values@.len() == v0.len(),
                x <= n,
                (p as int) < v0.len(),
                (z as int) < v0.len(),
                z != p,
                !is_alias(v0[z as int]),
                self.blocks@ == old(self).blocks@,
                self.bindings@ == old(self).bindings@,
                self.var_types@ == old(self).var_types@,
                self.current == old(self).current,
                self.values@[p as int] == (ValueData::Alias { to: z }),
                forall|y: int|
                    0 <= y < x as int && y != p as int ==> self.values@[y] == (if is_alias(
                        #[trigger] v0[y],
                    ) && vd_alias_to(v0[y]) == p as int {
                        ValueData::Alias { to: z }
                    } else {
                        v0[y]
                    }),
                forall|y: int|
                    x as int <= y < v0.len() && y != p as int ==> #[trigger] self.values@[y]
                        == v0[y],
            decreases n as int - x as int,
        {
            if x != p {
                let repoint = match &self.values[x] {
                    ValueData::Alias { to } => *to == p,
                    _ => false,
                };
                if repoint {
                    self.values[x] = ValueData::Alias { to: z };
                }
            }
            x += 1;
        }
        proof {
            let nvars = self.var_types@.len() as int;
            assert forall|y: int| 0 <= y < self.values@.len() implies #[trigger] value_ok_v(
                self.values@,
                self.blocks@,
                nvars,
                y,
            ) by {
                assert(value_ok_v(v0, old(self).blocks@, nvars, y));
                if y != p as int && !(is_alias(v0[y]) && vd_alias_to(v0[y]) == p as int) {
                    assert(self.values@[y] == v0[y]);
                    if is_alias(v0[y]) {
                        let t = vd_alias_to(v0[y]);
                        assert(t != p as int);
                        assert(self.values@[t] == v0[t]);
                    }
                }
            }
            assert forall|y: int|
                0 <= y < self.values@.len() && is_param(#[trigger] self.values@[y])
                    implies self.var_types@[vd_var(self.values@[y])] is Some by {
                assert(self.values@[y] == v0[y]);
            }
            assert forall|y: int| 0 <= y < v0.len() implies #[trigger] canon_v(self.values@, y)
                == (if canon_v(v0, y) == p as int {
                z as int
            } else {
                canon_v(v0, y)
            }) by {
                if y == p as int {
                } else {
                    assert(self.values@[y] == (if is_alias(v0[y]) && vd_alias_to(v0[y]) == p as int {
                        ValueData::Alias { to: z }
                    } else {
                        v0[y]
                    }));
                }
            }
            assert forall|y: int| 0 <= y < v0.len() implies value_evolves(
                #[trigger] v0[y],
                self.values@[y],
            ) by {
                if y != p as int {
                    assert(self.values@[y] == (if is_alias(v0[y]) && vd_alias_to(v0[y]) == p as int {
                        ValueData::Alias { to: z }
                    } else {
                        v0[y]
                    }));
                }
            }
            assert forall|y: int| 0 <= y < v0.len() implies canon_v(
                self.values@,
                #[trigger] canon_v(v0, y),
            ) == canon_v(self.values@, y) by {
                assert(value_ok_v(v0, old(self).blocks@, nvars, y));
                let c = canon_v(v0, y);
                assert(0 <= c < v0.len());
                assert(canon_v(v0, c) == c);
            }
        }
    }

    /// Runs trivial-merge elimination to a fixed point: rewrites every
    /// trivial parameter to its survivor, repoints its uses, and
    /// re-checks parameters that may have become trivial through the
    /// rewrite, until every surviving parameter is a genuine merge.
    fn collapse_all(&mut self)
        requires
            old(self).wf(),
        ensures
            final(self).wf(),
            final(self).collapsed(),
            final(self).values@.len() == old(self).values@.len(),
            final(self).blocks@ == old(self).blocks@,
            final(self).bindings@ == old(self).bindings@,
            final(self).var_types@ == old(self).var_types@,
            final(self).current == old(self).current,
            evolves(*old(self), *final(self)),
            pending_kept(*old(self), *final(self)),
    {
        let ghost s0 = *old(self);
        proof {
            lemma_evolves_refl(s0);
        }
        let n = self.values.len();
        loop
            invariant
                self.wf(),
                s0.wf(),
                n as int == self.values@.len(),
                self.values@.len() == s0.values@.len(),
                self.blocks@ == s0.blocks@,
                self.bindings@ == s0.bindings@,
                self.var_types@ == s0.var_types@,
                self.current == s0.current,
                evolves(s0, *self),
                pending_kept(s0, *self),
            ensures
                self.wf(),
                self.collapsed(),
                n as int == self.values@.len(),
                self.values@.len() == s0.values@.len(),
                self.blocks@ == s0.blocks@,
                self.bindings@ == s0.bindings@,
                self.var_types@ == s0.var_types@,
                self.current == s0.current,
                evolves(s0, *self),
                pending_kept(s0, *self),
            decreases nonalias_upto(self.values@, n as int),
        {
            let ghost pass0 = *self;
            let mut changed = false;
            let mut x: usize = 0;
            while x < n
                invariant
                    self.wf(),
                    s0.wf(),
                    pass0.wf(),
                    x <= n,
                    n as int == self.values@.len(),
                    self.values@.len() == s0.values@.len(),
                    self.blocks@ == s0.blocks@,
                    self.bindings@ == s0.bindings@,
                    self.var_types@ == s0.var_types@,
                    self.current == s0.current,
                    evolves(s0, *self),
                    pending_kept(s0, *self),
                    !changed ==> *self == pass0,
                    !changed ==> forall|y: int, z: int|
                        0 <= y < x as int && is_param(self.values@[y]) && vd_wired(
                            self.values@[y],
                        ) ==> !(#[trigger] sole_survivor_v(self.values@, y, z)),
                    changed ==> nonalias_upto(self.values@, n as int) < nonalias_upto(
                        pass0.values@,
                        n as int,
                    ),
                decreases n as int - x as int,
            {
                let is_cand = match &self.values[x] {
                    ValueData::Param { wired, .. } => *wired,
                    _ => false,
                };
                if is_cand {
                    match self.find_survivor(x) {
                        Some(z) => {
                            let ghost before = *self;
                            self.alias_param(x, z);
                            proof {
                                lemma_nonalias_flip(
                                    before.values@,
                                    self.values@,
                                    x as int,
                                    n as int,
                                );
                                lemma_evolves_trans(s0, before, *self);
                            }
                            changed = true;
                        },
                        None => {},
                    }
                }
                x += 1;
            }
            if !changed {
                proof {
                    assert forall|y: int, z: int|
                        0 <= y < self.values@.len() && is_param(self.values@[y]) && vd_wired(
                            self.values@[y],
                        ) implies !(#[trigger] sole_survivor_v(self.values@, y, z)) by {}
                }
                break ;
            }
        }
    }

    /// Writes `val` as the definition of `var` in the current block,
    /// shadowing any earlier definition there. The variable must be
    /// declared and the value's type must match its declared type.
    pub fn def_var(&mut self, var: usize, val: usize) -> (r: Result<(), SsaError>)
        requires
            old(self).wf(),
            (val as int) < old(self).nvalues(),
            old(self).current is Some,
        ensures
            final(self).wf(),
            old(self).collapsed() ==> final(self).collapsed(),
            r is Err ==> *final(self) == *old(self),
            old(self).var_ty(var as int) is None <==> r == Result::<(), SsaError>::Err(
                SsaError::UndeclaredVariable,
            ),
            old(self).var_ty(var as int) matches Some(t) && t != old(self).ty_of(val as int) <==> r
                == Result::<(), SsaError>::Err(SsaError::TypeMismatch),
            r is Ok <==> old(self).var_ty(var as int) == Some(old(self).ty_of(val as int)),
            r is Ok ==> final(self).values@ == old(self).values@ && final(self).blocks@ == old(self).blocks@ && final(self).var_types@ == old(self).var_types@ && final(self).current
                == old(self).current,
            r is Ok ==> final(self).spec_binding(old(self).current->0 as int, var as int) == (
            Binding::Defined { val }),
            r is Ok ==> forall|bb: int, vv: int|
                0 <= bb < old(self).nblocks() && 0 <= vv < old(self).nvars() && !(bb
                    == old(self).current->0 as int && vv == var as int) ==> final(self).spec_binding(bb, vv) == old(self).spec_binding(bb, vv),
    {
        if var >= self.var_types.len() {
            return Err(SsaError::UndeclaredVariable);
        }
        let declared = self.var_types[var];
        match declared {
            None => Err(SsaError::UndeclaredVariable),
            Some(t) => {
                let vt = self.type_of_value(val);
                if vt != t {
                    return Err(SsaError::TypeMismatch);
                }
                let cur = match self.current {
                    Some(c) => c,
                    None => 0,
                };
                self.bindings[cur][var] = Binding::Defined { val };
                proof {
                    assert forall|bb: int, vv: int|
                        0 <= bb < self.bindings@.len() && 0 <= vv < self.bindings@[bb]@.len()
                            implies binding_ok_b(
                        #[trigger] self.bindings@[bb]@[vv],
                        self.values@.len() as int,
                    ) by {
                        if bb != cur as int || vv != var as int {
                            assert(self.bindings@[bb]@[vv] == old(self).bindings@[bb]@[vv]);
                            assert(binding_ok_b(
                                old(self).bindings@[bb]@[vv],
                                old(self).values@.len() as int,
                            ));
                        }
                    }
                }
                Ok(())
            },
        }
    }

    /// Wires the placeholder parameter `p` of a sealed block: reads its
    /// variable in every predecessor, records the incoming values in
    /// predecessor order, and then removes the parameter again if the
    /// merge turned out trivial. Returns the value the parameter stands
    /// for after elimination.
    fn wire_param(&mut self, p: usize) -> (r: Result<usize, SsaError>)
        requires
            old(self).wf(),
            old(self).collapsed(),
            (p as int) < old(self).nvalues(),
            old(self).pending_param(p as int),
            old(self).blocks@[vd_block(old(self).values@[p as int])].sealed,
            old(self).var_ty(vd_var(old(self).values@[p as int])) is Some,
        ensures
            reads_ok(*old(self), *final(self)),
            r is Ok ==> new_params_ok(*old(self), *final(self), vd_var(old(self).values@[p as int])),
            r is Ok ==> pending_ok(*old(self), *final(self)),
            r is Err ==> r == Result::<usize, SsaError>::Err(SsaError::UninitializedVariable),
            r is Ok ==> !final(self).pending_param(p as int),
            forall|x: int|
                0 <= x < old(self).nvalues() && #[trigger] old(self).pending_param(x) && x
                    != p as int ==> final(self).values@[x] == old(self).values@[x],
            r is Ok ==> (r->Ok_0 as int) == canon_v(final(self).values@, p as int) && (
            r->Ok_0 as int) < final(self).nvalues() && !is_alias(
                final(self).values@[r->Ok_0 as int],
            ),
            r is Ok && old(self).blocks@[vd_block(old(self).values@[p as int])].preds@.len() == 1
                ==> final(self).cached_val(
                old(self).blocks@[vd_block(old(self).values@[p as int])].preds@[0] as int,
                vd_var(old(self).values@[p as int]),
            ) == Some(r->Ok_0 as int),
            r is Err ==> exists|k: int|
                0 <= k < old(self).blocks@[vd_block(old(self).values@[p as int])].preds@.len()
                    && has_uninit_path(
                    *old(self),
                    #[trigger] old(self).blocks@[vd_block(
                        old(self).values@[p as int],
                    )].preds@[k] as int,
                    vd_var(old(self).values@[p as int]),
                ),
            r is Ok && is_param(final(self).values@[p as int]) ==> vd_ops(
                final(self).values@[p as int],
            ).len() == old(self).blocks@[vd_block(old(self).values@[p as int])].preds@.len()
                && forall|k: int|
                0 <= k < old(self).blocks@[vd_block(old(self).values@[p as int])].preds@.len()
                    ==> final(self).cached_val(
                    old(self).blocks@[vd_block(old(self).values@[p as int])].preds@[k] as int,
                    vd_var(old(self).values@[p as int]),
                ) == Some(
                    canon_v(
                        final(self).values@,
                        #[trigger] vd_ops(final(self).values@[p as int])[k] as int,
                    ),
                ),
            r is Ok && !is_param(final(self).values@[p as int]) ==> forall|k: int|
                0 <= k < old(self).blocks@[vd_block(old(self).values@[p as int])].preds@.len()
                    ==> final(self).cached_val(
                    #[trigger] old(self).blocks@[vd_block(
                        old(self).values@[p as int],
                    )].preds@[k] as int,
                    vd_var(old(self).values@[p as int]),
                ) == Some(r->Ok_0 as int),
        decreases old(self).unres(), 1int,
    {
        let ghost w0 = *old(self);
        let (block, var) = match &self.values[p] {
            ValueData::Param { block, var, .. } => (*block, *var),
            _ => (0, 0),
        };
        proof {
            assert(value_ok_v(w0.values@, w0.blocks@, w0.var_types@.len() as int, p as int));
            lemma_evolves_refl(w0);
        }
        let np = self.blocks[block].preds.len();
        let mut ops: Vec<usize> = Vec::new();
        let mut j: usize = 0;
        while j < np
            invariant
                w0 == *old(self),
                self.wf(),
                self.collapsed(),
                w0.wf(),
                w0.collapsed(),
                evolves(w0, *self),
                self.unres() <= w0.unres(),
                j <= np,
                ops@.len() == j as int,
                (p as int) < w0.values@.len(),
                w0.pending_param(p as int),
                self.values@[p as int] == w0.values@[p as int],
                block as int == vd_block(w0.values@[p as int]),
                var as int == vd_var(w0.values@[p as int]),
                (block as int) < w0.nblocks(),
                (var as int) < w0.nvars(),
                w0.var_ty(var as int) is Some,
                w0.blocks@[block as int].sealed,
                np as int == w0.blocks@[block as int].preds@.len(),
                forall|k: int| 0 <= k < j as int ==> (#[trigger] ops@[k] as int) < self.nvalues(),
                forall|k: int|
                    0 <= k < j as int ==> self.cached_val(
                        w0.blocks@[block as int].preds@[k] as int,
                        var as int,
                    ) == Some(canon_v(self.values@, #[trigger] ops@[k] as int)),
                new_params_ok(w0, *self, var as int),
                pending_ok(w0, *self),
                pending_kept(w0, *self),
            decreases np as int - j as int,
        {
            let pred = self.blocks[block].preds[j];
            proof {
                assert((self.blocks@[block as int].preds@[j as int] as int) < w0.nblocks());
            }
            let ghost mid = *self;
            let x = match self.read_var(pred, var) {
                Ok(x) => x,
                Err(e) => {
                    proof {
                        lemma_evolves_trans(w0, mid, *self);
                        assert forall|x0: int|
                            0 <= x0 < w0.values@.len() && #[trigger] w0.pending_param(x0)
                                implies self.values@[x0] == w0.values@[x0] by {
                            assert(mid.values@[x0] == w0.values@[x0]);
                            assert(mid.pending_param(x0));
                        }
                        // The failing predecessor read shows an
                        // uninitialized path, already present before the
                        // wiring began.
                        assert(has_uninit_path(mid, pred as int, var as int));
                        let chain = choose|c: Seq<int>|
                            #[trigger] uninit_chain(mid, c, var as int) && c[0] == pred as int;
                        lemma_chain_back_evolves(w0, mid, chain, var as int);
                        assert(w0.blocks@[block as int].preds@[j as int] == pred);
                        assert(0 <= (j as int) < w0.blocks@[block as int].preds@.len());
                        assert(has_uninit_path(w0, w0.blocks@[block as int].preds@[j as int] as int, var as int));
                    }
                    return Err(e);
                },
            };
            ops.push(x);
            proof {
                lemma_evolves_trans(w0, mid, *self);
                assert forall|x0: int|
                    0 <= x0 < w0.values@.len() && #[trigger] w0.pending_param(x0)
                        implies self.values@[x0] == w0.values@[x0] by {
                    assert(mid.values@[x0] == w0.values@[x0]);
                    assert(mid.pending_param(x0));
                }
                assert forall|k: int| 0 <= k < j as int + 1 implies self.cached_val(
                    w0.blocks@[block as int].preds@[k] as int,
                    var as int,
                ) == Some(canon_v(self.values@, #[trigger] ops@[k] as int)) by {
                    let pk = w0.blocks@[block as int].preds@[k] as int;
                    if k < j as int {
                        let raw = bnd_val(mid.bindings@[pk]@[var as int]);
                        assert(mid.cached_val(pk, var as int) == Some(
                            canon_v(mid.values@, ops@[k] as int),
                        ));
                        assert(binding_ok_b(mid.bindings@[pk]@[var as int], mid.values@.len() as int));
                        assert(self.bindings@[pk]@[var as int] == mid.bindings@[pk]@[var as int]);
                        assert(canon_v(self.values@, canon_v(mid.values@, raw)) == canon_v(
                            self.values@,
                            raw,
                        ));
                        assert(canon_v(self.values@, canon_v(mid.values@, ops@[k] as int))
                            == canon_v(self.values@, ops@[k] as int));
                    } else {
                        assert(ops@[k] == x);
                        assert(self.cached_val(pk, var as int) == Some(x as int));
                        assert(canon_v(self.values@, x as int) == x as int);
                    }
                }
                assert forall|x0: int|
                    w0.values@.len() <= x0 < self.values@.len() && is_param(
                        #[trigger] self.values@[x0],
                    ) implies vd_var(self.values@[x0]) == var as int && 0 <= vd_block(
                    self.values@[x0],
                ) < self.bindings@.len() && resolved_to(
                    self.bindings@[vd_block(self.values@[x0])]@[var as int],
                    x0,
                ) by {
                    if x0 < mid.values@.len() {
                        assert(is_param(mid.values@[x0]));
                        assert(vd_var(mid.values@[x0]) == var as int);
                        assert(resolved_to(
                            mid.bindings@[vd_block(mid.values@[x0])]@[var as int],
                            x0,
                        ));
                        assert(self.bindings@[vd_block(mid.values@[x0])]@[var as int]
                            == mid.bindings@[vd_block(mid.values@[x0])]@[var as int]);
                    }
                }
                assert forall|x0: int|
                    0 <= x0 < self.values@.len() && #[trigger] self.pending_param(x0) implies (x0
                    < w0.values@.len() && w0.pending_param(x0)) || !self.blocks@[vd_block(
                    self.values@[x0],
                )].sealed by {
                    if x0 < mid.values@.len() {
                        if !(mid.pending_param(x0)) {
                            assert(value_evolves(mid.values@[x0], self.values@[x0]));
                            assert(false);
                        }
                    }
                }
                assert(mid.values@[p as int] == w0.values@[p as int]);
                assert(mid.pending_param(p as int));
                assert(self.values@[p as int] == mid.values@[p as int]);
            }
            j += 1;
        }
        // All incoming values are known: wire them in predecessor order.
        let ty = match &self.values[p] {
            ValueData::Param { ty, .. } => *ty,
            _ => 0,
        };
        let ghost loopend = *self;
        self.values[p] = ValueData::Param { block, var, ty, wired: true, ops };
        let ghost vals2 = self.values@;
        proof {
            assert forall|y: int| 0 <= y < vals2.len() implies #[trigger] canon_v(vals2, y)
                == canon_v(loopend.values@, y) by {}
            assert forall|y: int| 0 <= y < self.values@.len() implies #[trigger] value_ok_v(
                self.values@,
                self.blocks@,
                self.var_types@.len() as int,
                y,
            ) by {
                if y != p as int {
                    assert(value_ok_v(
                        loopend.values@,
                        loopend.blocks@,
                        loopend.var_types@.len() as int,
                        y,
                    ));
                    assert(self.values@[y] == loopend.values@[y]);
                }
            }
            assert forall|y: int|
                0 <= y < self.values@.len() && is_param(#[trigger] self.values@[y])
                    implies self.var_types@[vd_var(self.values@[y])] is Some by {
                if y != p as int {
                    assert(self.values@[y] == loopend.values@[y]);
                }
            }
            assert forall|y: int| 0 <= y < loopend.values@.len() implies value_evolves(
                #[trigger] loopend.values@[y],
                self.values@[y],
            ) by {
                if y != p as int {
                    assert(self.values@[y] == loopend.values@[y]);
                }
            }
            assert forall|y: int| 0 <= y < loopend.values@.len() implies canon_v(
                self.values@,
                #[trigger] canon_v(loopend.values@, y),
            ) == canon_v(self.values@, y) by {
                assert(value_ok_v(
                    loopend.values@,
                    loopend.blocks@,
                    loopend.var_types@.len() as int,
                    y,
                ));
                let c = canon_v(loopend.values@, y);
                assert(canon_v(loopend.values@, c) == c);
            }
            assert(evolves(loopend, *self));
            lemma_evolves_trans(w0, loopend, *self);
        }
        // If the merge is trivial, rewrite the parameter away and let the
        // rewrite cascade through any merge that becomes trivial in turn.
        let res = match self.find_survivor(p) {
            Some(z) => {
                let ghost presub = *self;
                self.alias_param(p, z);
                let ghost postsub = *self;
                self.collapse_all();
                proof {
                    lemma_evolves_trans(presub, postsub, *self);
                    lemma_evolves_trans(w0, presub, *self);
                    assert forall|x0: int|
                        0 <= x0 < w0.values@.len() && #[trigger] w0.pending_param(x0) && x0
                            != p as int implies self.values@[x0] == w0.values@[x0] by {
                        assert(loopend.values@[x0] == w0.values@[x0]);
                        assert(presub.values@[x0] == loopend.values@[x0]);
                        assert(presub.pending_param(x0));
                        assert(postsub.values@[x0] == presub.values@[x0]);
                        assert(postsub.pending_param(x0));
                        assert(self.values@[x0] == postsub.values@[x0]);
                    }
                    // Every incoming value resolves to what its
                    // predecessor provides, and, the merge being
                    // trivial, to the one surviving place.
                    assert(is_alias(postsub.values@[p as int]));
                    assert(value_evolves(postsub.values@[p as int], self.values@[p as int]));
                    assert(is_alias(self.values@[p as int]));
                    assert(canon_v(postsub.values@, p as int) == z as int);
                    assert(canon_v(self.values@, canon_v(postsub.values@, p as int)) == canon_v(
                        self.values@,
                        p as int,
                    ));
                    assert forall|k: int| 0 <= k < np as int implies self.cached_val(
                        w0.blocks@[block as int].preds@[k] as int,
                        var as int,
                    ) == Some(
                        canon_v(self.values@, #[trigger] vd_ops(vals2[p as int])[k] as int),
                    ) by {
                        let pk = w0.blocks@[block as int].preds@[k] as int;
                        let opk = vd_ops(vals2[p as int])[k] as int;
                        assert(loopend.cached_val(pk, var as int) == Some(
                            canon_v(loopend.values@, opk),
                        ));
                        let raw = bnd_val(loopend.bindings@[pk]@[var as int]);
                        assert(binding_ok_b(
                            loopend.bindings@[pk]@[var as int],
                            loopend.values@.len() as int,
                        ));
                        assert(self.bindings@[pk]@[var as int]
                            == loopend.bindings@[pk]@[var as int]);
                        assert(canon_v(vals2, raw) == canon_v(loopend.values@, raw));
                        assert(canon_v(vals2, opk) == canon_v(loopend.values@, opk));
                        assert(canon_v(self.values@, canon_v(vals2, raw)) == canon_v(
                            self.values@,
                            raw,
                        ));
                        assert(canon_v(self.values@, canon_v(vals2, opk)) == canon_v(
                            self.values@,
                            opk,
                        ));
                    }
                    assert forall|k: int| 0 <= k < np as int implies canon_v(
                        self.values@,
                        #[trigger] vd_ops(vals2[p as int])[k] as int,
                    ) == canon_v(self.values@, p as int) by {
                        let opk = vd_ops(vals2[p as int])[k] as int;
                        assert(canon_v(vals2, opk) == z as int || canon_v(vals2, opk)
                            == p as int);
                        assert(canon_v(self.values@, canon_v(vals2, opk)) == canon_v(
                            self.values@,
                            opk,
                        ));
                    }
                    if vd_ops(vals2[p as int]).len() == 1 {
                        let op0 = vd_ops(vals2[p as int])[0] as int;
                        let j0 = choose|jj: int|
                            0 <= jj < vd_ops(vals2[p as int]).len() && canon_v(
                                vals2,
                                vd_ops(vals2[p as int])[jj] as int,
                            ) == z as int;
                        assert(j0 == 0);
                        assert(canon_v(vals2, op0) == z as int);
                        assert(canon_v(postsub.values@, p as int) == z as int);
                        assert(canon_v(self.values@, canon_v(postsub.values@, p as int))
                            == canon_v(self.values@, p as int));
                        assert(canon_v(self.values@, canon_v(vals2, op0)) == canon_v(
                            self.values@,
                            op0,
                        ));
                        assert(canon_v(self.values@, op0) == canon_v(self.values@, p as int));
                    }
                }
                self.resolve_value(p)
            },
            None => {
                proof {
                    assert forall|q: int, z: int|
                        0 <= q < vals2.len() && is_param(vals2[q]) && vd_wired(vals2[q])
                            implies !(#[trigger] sole_survivor_v(vals2, q, z)) by {
                        if q == p as int {
                            assert(!sole_survivor_v(vals2, q, z));
                        } else {
                            if sole_survivor_v(vals2, q, z) {
                                assert(vals2[q] == loopend.values@[q]);
                                assert(value_ok_v(
                                    loopend.values@,
                                    loopend.blocks@,
                                    loopend.var_types@.len() as int,
                                    q,
                                ));
                                lemma_sole_transfer(loopend.values@, vals2, q, z);
                                assert(false);
                            }
                        }
                    }
                    assert forall|x0: int|
                        0 <= x0 < w0.values@.len() && #[trigger] w0.pending_param(x0) && x0
                            != p as int implies self.values@[x0] == w0.values@[x0] by {
                        assert(loopend.values@[x0] == w0.values@[x0]);
                        assert(self.values@[x0] == loopend.values@[x0]);
                    }
                    // The parameter is kept: every incoming value
                    // resolves to what its predecessor provides.
                    assert(self.values@[p as int] == vals2[p as int]);
                    assert forall|k: int| 0 <= k < np as int implies self.cached_val(
                        w0.blocks@[block as int].preds@[k] as int,
                        var as int,
                    ) == Some(
                        canon_v(self.values@, #[trigger] vd_ops(vals2[p as int])[k] as int),
                    ) by {
                        let pk = w0.blocks@[block as int].preds@[k] as int;
                        let opk = vd_ops(vals2[p as int])[k] as int;
                        assert(loopend.cached_val(pk, var as int) == Some(
                            canon_v(loopend.values@, opk),
                        ));
                        let raw = bnd_val(loopend.bindings@[pk]@[var as int]);
                        assert(binding_ok_b(
                            loopend.bindings@[pk]@[var as int],
                            loopend.values@.len() as int,
                        ));
                        assert(self.bindings@[pk]@[var as int]
                            == loopend.bindings@[pk]@[var as int]);
                        assert(canon_v(self.values@, raw) == canon_v(loopend.values@, raw));
                        assert(canon_v(self.values@, opk) == canon_v(loopend.values@, opk));
                    }
                    if vd_ops(vals2[p as int]).len() == 1 {
                        let op0 = vd_ops(vals2[p as int])[0] as int;
                        if canon_v(vals2, op0) != p as int {
                            assert(canon_v(vals2, vd_ops(vals2[p as int])[0] as int) == canon_v(
                                vals2,
                                op0,
                            ));
                            assert forall|jj: int|
                                0 <= jj < vd_ops(vals2[p as int]).len() implies (canon_v(
                                vals2,
                                #[trigger] vd_ops(vals2[p as int])[jj] as int,
                            ) == canon_v(vals2, op0) || canon_v(
                                vals2,
                                vd_ops(vals2[p as int])[jj] as int,
                            ) == p as int) by {
                                assert(jj == 0);
                            }
                            assert(sole_survivor_v(vals2, p as int, canon_v(vals2, op0)));
                            assert(false);
                        }
                        assert(canon_v(self.values@, op0) == canon_v(self.values@, p as int));
                    }
                }
                p
            },
        };
        proof {
            // The parameter is wired or rewritten, never pending.
            assert(!self.pending_param(p as int));
            // When the merge was trivial, every predecessor's value is
            // the returned value itself.
            if !is_param(self.values@[p as int]) {
                assert forall|k: int| 0 <= k < np as int implies self.cached_val(
                    #[trigger] w0.blocks@[block as int].preds@[k] as int,
                    var as int,
                ) == Some(res as int) by {
                    let opk = vd_ops(vals2[p as int])[k] as int;
                    assert(self.cached_val(
                        w0.blocks@[block as int].preds@[k] as int,
                        var as int,
                    ) == Some(canon_v(self.values@, opk)));
                    assert(canon_v(self.values@, opk) == canon_v(self.values@, p as int));
                }
            }
            assert forall|x0: int|
                w0.values@.len() <= x0 < self.values@.len() && is_param(
                    #[trigger] self.values@[x0],
                ) implies vd_var(self.values@[x0]) == var as int && 0 <= vd_block(
                self.values@[x0],
            ) < self.bindings@.len() && resolved_to(
                self.bindings@[vd_block(self.values@[x0])]@[var as int],
                x0,
            ) by {
                assert(value_evolves(loopend.values@[x0], self.values@[x0]));
                assert(is_param(loopend.values@[x0]));
                assert(vd_var(loopend.values@[x0]) == var as int);
                assert(vd_block(self.values@[x0]) == vd_block(loopend.values@[x0]));
                assert(self.bindings@ == loopend.bindings@);
            }
            assert forall|x0: int|
                0 <= x0 < self.values@.len() && #[trigger] self.pending_param(x0) implies (x0
                < w0.values@.len() && w0.pending_param(x0)) || !self.blocks@[vd_block(
                self.values@[x0],
            )].sealed by {
                assert(x0 != p as int);
                assert(value_evolves(loopend.values@[x0], self.values@[x0]));
                if !(loopend.pending_param(x0)) {
                    assert(false);
                }
                assert(vd_block(self.values@[x0]) == vd_block(loopend.values@[x0]));
            }

            // The single-predecessor case: the read returns exactly what
            // the predecessor provides.
            if np == 1 {
                let pk = w0.blocks@[block as int].preds@[0] as int;
                let op0 = vd_ops(vals2[p as int])[0] as int;
                assert(loopend.cached_val(pk, var as int) == Some(
                    canon_v(loopend.values@, op0),
                ));
                let raw = bnd_val(loopend.bindings@[pk]@[var as int]);
                assert(binding_ok_b(
                    loopend.bindings@[pk]@[var as int],
                    loopend.values@.len() as int,
                ));
                assert(self.bindings@[pk]@[var as int] == loopend.bindings@[pk]@[var as int]);
                assert(canon_v(vals2, raw) == canon_v(loopend.values@, raw));
                assert(canon_v(vals2, op0) == canon_v(loopend.values@, op0));
                assert(canon_v(vals2, raw) == canon_v(vals2, op0));
                assert(canon_v(self.values@, canon_v(vals2, raw)) == canon_v(self.values@, raw));
                assert(canon_v(self.values@, canon_v(vals2, op0)) == canon_v(self.values@, op0));
                assert(canon_v(self.values@, raw) == canon_v(self.values@, op0));
                assert(self.cached_val(pk, var as int) == Some(canon_v(self.values@, raw)));
                assert(canon_v(self.values@, op0) == canon_v(self.values@, p as int));
                assert(self.cached_val(pk, var as int) == Some(canon_v(self.values@, p as int)));
            }
        }
        Ok(res)
    }

    /// The value a read of variable `v` observes at the end of block `b`:
    /// a direct definition if the block has one, and otherwise the value
    /// inherited through the predecessors, merging with a block parameter
    /// where control can arrive from several sides. The answer is cached,
    /// so a pair is resolved at most once; a placeholder parameter breaks
    /// cycles through loop back-edges, and on a block that is not sealed
    /// yet it is left for `seal_block` to finish.
    ///
    /// A read that can reach a sealed entry block with no definition of
    /// the variable on the way is a use before any definition; the
    /// builder fails it with `UninitializedVariable` and synthesizes no
    /// default value. Success is owed whenever no such path exists.
    pub fn read_var(&mut self, b: usize, v: usize) -> (r: Result<usize, SsaError>)
        requires
            old(self).wf(),
            old(self).collapsed(),
            (b as int) < old(self).nblocks(),
            (v as int) < old(self).nvars(),
            old(self).var_ty(v as int) is Some,
        ensures
            reads_ok(*old(self), *final(self)),
            r is Ok ==> new_params_ok(*old(self), *final(self), v as int),
            r is Ok ==> pending_ok(*old(self), *final(self)),
            pending_kept(*old(self), *final(self)),
            r is Err ==> r == Result::<usize, SsaError>::Err(SsaError::UninitializedVariable),
            old(self).cached_val(b as int, v as int) matches Some(c) ==> *final(self) == *old(self)
                && r is Ok && r->Ok_0 as int == c,
            r is Ok ==> (r->Ok_0 as int) < final(self).nvalues() && !is_alias(
                final(self).values@[r->Ok_0 as int],
            ) && final(self).cached_val(b as int, v as int) == Some(r->Ok_0 as int),
            old(self).cached_val(b as int, v as int) is None && old(self).blocks@[b as int].sealed
                && old(self).blocks@[b as int].preds@.len() == 0 ==> r is Err && *final(self)
                == *old(self),
            old(self).cached_val(b as int, v as int) is None && !old(self).blocks@[b as int].sealed
                ==> r is Ok && r->Ok_0 as int == old(self).nvalues() && final(self).pending_param(
                old(self).nvalues(),
            ),
            old(self).cached_val(b as int, v as int) is None && old(self).blocks@[b as int].sealed
                && old(self).blocks@[b as int].preds@.len() == 1 && r is Ok ==> final(self).cached_val(b as int, v as int) == final(self).cached_val(
                old(self).blocks@[b as int].preds@[0] as int,
                v as int,
            ),
            old(self).cached_val(b as int, v as int) is None && old(self).blocks@[b as int].sealed
                && old(self).blocks@[b as int].preds@.len() == 1 && r is Ok ==> forall|x: int|
                old(self).nvalues() <= x < final(self).nvalues() && is_param(
                    #[trigger] final(self).values@[x],
                ) && vd_block(final(self).values@[x]) == b as int ==> x == r->Ok_0 as int,
            r is Err ==> has_uninit_path(*old(self), b as int, v as int),
            old(self).cached_val(b as int, v as int) is None && old(self).blocks@[b as int].sealed
                && r is Ok && is_param(final(self).values@[old(self).nvalues()]) ==> vd_ops(
                final(self).values@[old(self).nvalues()],
            ).len() == old(self).blocks@[b as int].preds@.len() && forall|k: int|
                0 <= k < old(self).blocks@[b as int].preds@.len() ==> final(self).cached_val(
                    old(self).blocks@[b as int].preds@[k] as int,
                    v as int,
                ) == Some(
                    canon_v(
                        final(self).values@,
                        #[trigger] vd_ops(final(self).values@[old(self).nvalues()])[k] as int,
                    ),
                ),
            old(self).cached_val(b as int, v as int) is None && old(self).blocks@[b as int].sealed
                && r is Ok && !is_param(final(self).values@[old(self).nvalues()]) ==> forall|k: int|
                0 <= k < old(self).blocks@[b as int].preds@.len() ==> final(self).cached_val(
                    #[trigger] old(self).blocks@[b as int].preds@[k] as int,
                    v as int,
                ) == Some(r->Ok_0 as int),
        decreases old(self).unres(), 0int,
    {
        proof {
            lemma_evolves_refl(*old(self));
            assert(binding_ok_b(self.bindings@[b as int]@[v as int], self.values@.len() as int));
        }
        let bd = self.bindings[b][v];
        match bd {
            Binding::Defined { val } => {
                return Ok(self.resolve_value(val));
            },
            Binding::Resolved { val } => {
                return Ok(self.resolve_value(val));
            },
            Binding::Unresolved => {},
        }
        let sealed = self.blocks[b].sealed;
        let npreds = self.blocks[b].preds.len();
        if sealed && npreds == 0 {
            // A sealed entry block without a definition: the variable is
            // read before anything reaches it.
            proof {
                let c = seq![b as int];
                assert(c.len() == 1);
                assert(c[0] == b as int);
                assert(c.last() == b as int);
                assert(uninit_chain(*self, c, v as int));
                assert(has_uninit_path(*self, b as int, v as int));
            }
            return Err(SsaError::UninitializedVariable);
        }
        // Mint a placeholder parameter and cache it before recursing:
        // a read that loops back to this pair finds it and stops.
        let ty = match self.var_types[v] {
            Some(t) => t,
            None => 0,
        };
        let p = self.values.len();
        self.values.push(
            ValueData::Param { block: b, var: v, ty, wired: false, ops: Vec::new() },
        );
        self.bindings[b][v] = Binding::Resolved { val: p };
        proof {
            let nvars = self.var_types@.len() as int;
            assert forall|y: int| 0 <= y < self.values@.len() implies #[trigger] value_ok_v(
                self.values@,
                self.blocks@,
                nvars,
                y,
            ) by {
                if y < old(self).values@.len() {
                    assert(value_ok_v(old(self).values@, old(self).blocks@, nvars, y));
                    assert(self.values@[y] == old(self).values@[y]);
                }
            }
            assert forall|y: int|
                0 <= y < self.values@.len() && is_param(#[trigger] self.values@[y])
                    implies self.var_types@[vd_var(self.values@[y])] is Some by {
                if y < old(self).values@.len() {
                    assert(self.values@[y] == old(self).values@[y]);
                }
            }
            assert forall|bb: int, vv: int|
                0 <= bb < self.bindings@.len() && 0 <= vv < self.bindings@[bb]@.len()
                    implies binding_ok_b(
                #[trigger] self.bindings@[bb]@[vv],
                self.values@.len() as int,
            ) by {
                if bb != b as int || vv != v as int {
                    assert(self.bindings@[bb]@[vv] == old(self).bindings@[bb]@[vv]);
                    assert(binding_ok_b(
                        old(self).bindings@[bb]@[vv],
                        old(self).values@.len() as int,
                    ));
                }
            }
            assert forall|y: int, jj: int|
                0 <= y < old(self).values@.len() && 0 <= jj < vd_ops(old(self).values@[y]).len()
                    implies (#[trigger] vd_ops(old(self).values@[y])[jj] as int) < old(self).values@.len() by {
                assert(value_ok_v(old(self).values@, old(self).blocks@, nvars, y));
            }
            lemma_append_keeps_collapsed(old(self).values@, self.values@[p as int]);
            assert(self.values@ == old(self).values@.push(self.values@[p as int]));
            assert forall|y: int| 0 <= y < old(self).values@.len() implies canon_v(
                self.values@,
                #[trigger] canon_v(old(self).values@, y),
            ) == canon_v(self.values@, y) by {
                assert(value_ok_v(old(self).values@, old(self).blocks@, nvars, y));
                let c = canon_v(old(self).values@, y);
                assert(self.values@[y] == old(self).values@[y]);
                assert(self.values@[c] == old(self).values@[c]);
            }
            assert forall|y: int| 0 <= y < old(self).values@.len() implies value_evolves(
                #[trigger] old(self).values@[y],
                self.values@[y],
            ) by {
                assert(self.values@[y] == old(self).values@[y]);
            }
            lemma_unres_cache(
                old(self).bindings@,
                self.bindings@,
                b as int,
                v as int,
                old(self).bindings@.len() as int,
            );
            assert(evolves(*old(self), *self));
        }
        if !sealed {
            // Deferred: the placeholder keeps the read going and is wired
            // when the block is sealed.
            return Ok(p);
        }
        let ghost mid = *self;
        let res = match self.wire_param(p) {
            Ok(x) => x,
            Err(e) => {
                proof {
                    lemma_evolves_trans(*old(self), mid, *self);
                    assert forall|x0: int|
                        0 <= x0 < old(self).values@.len() && #[trigger] old(self).pending_param(x0)
                            implies self.values@[x0] == old(self).values@[x0] by {
                        assert(mid.values@[x0] == old(self).values@[x0]);
                        assert(mid.pending_param(x0));
                        assert(x0 != p as int);
                    }
                    // The wiring failed on some predecessor: its
                    // uninitialized path, prefixed with this block, shows
                    // one for this read as well.
                    assert(vd_block(mid.values@[p as int]) == b as int);
                    assert(vd_var(mid.values@[p as int]) == v as int);
                    let k = choose|k: int|
                        0 <= k < mid.blocks@[b as int].preds@.len() && has_uninit_path(
                            mid,
                            #[trigger] mid.blocks@[b as int].preds@[k] as int,
                            v as int,
                        );
                    let pk = mid.blocks@[b as int].preds@[k] as int;
                    let chain = choose|c: Seq<int>|
                        #[trigger] uninit_chain(mid, c, v as int) && c[0] == pk;
                    lemma_chain_back_evolves(*old(self), mid, chain, v as int);
                    assert(old(self).spec_binding(b as int, v as int) is Unresolved);
                    assert(old(self).blocks@[b as int].preds@ == mid.blocks@[b as int].preds@);
                    assert(0 <= k < old(self).blocks@[b as int].preds@.len()
                        && old(self).blocks@[b as int].preds@[k] == chain[0]);
                    assert(chain_step(*old(self), b as int, chain[0]));
                    lemma_chain_prepend(*old(self), b as int, chain, v as int);
                    assert(uninit_chain(*old(self), seq![b as int] + chain, v as int));
                    assert(has_uninit_path(*old(self), b as int, v as int));
                }
                return Err(e);
            },
        };
        proof {
            lemma_evolves_trans(*old(self), mid, *self);
            assert(self.bindings@[b as int]@[v as int] == mid.bindings@[b as int]@[v as int]);
            assert(self.cached_val(b as int, v as int) == Some(canon_v(self.values@, p as int)));
            assert(mid.blocks@ == old(self).blocks@);
            assert(vd_block(mid.values@[p as int]) == b as int);
            assert(vd_var(mid.values@[p as int]) == v as int);
            // In the single-predecessor case no parameter survives on
            // this block: a surviving parameter of `b` for `v` is the
            // cached resolution of (b, v), which is the placeholder, and
            // a placeholder that still is a parameter resolves to itself.
            assert forall|x0: int|
                old(self).values@.len() <= x0 < self.values@.len() && is_param(
                    #[trigger] self.values@[x0],
                ) && vd_block(self.values@[x0]) == b as int implies x0 == canon_v(
                self.values@,
                p as int,
            ) by {
                assert(vd_var(self.values@[x0]) == v as int);
                assert(resolved_to(self.bindings@[vd_block(self.values@[x0])]@[v as int], x0));
                assert(x0 == p as int);
                assert(canon_v(self.values@, p as int) == p as int);
            }
            assert forall|x0: int|
                old(self).values@.len() <= x0 < self.values@.len() && is_param(
                    #[trigger] self.values@[x0],
                ) implies vd_var(self.values@[x0]) == v as int && 0 <= vd_block(self.values@[x0])
                < self.bindings@.len() && resolved_to(
                self.bindings@[vd_block(self.values@[x0])]@[v as int],
                x0,
            ) by {
                if x0 == p as int {
                    assert(value_evolves(mid.values@[x0], self.values@[x0]));
                    assert(resolved_to(mid.bindings@[b as int]@[v as int], p as int));
                    assert(self.bindings@[b as int]@[v as int]
                        == mid.bindings@[b as int]@[v as int]);
                }
            }
            assert forall|x0: int|
                0 <= x0 < self.values@.len() && #[trigger] self.pending_param(x0) implies (x0 < old(self).values@.len() && old(self).pending_param(x0)) || !self.blocks@[vd_block(
                self.values@[x0],
            )].sealed by {
                if x0 == p as int {
                    assert(false);
                } else if x0 < mid.values@.len() && x0 >= old(self).values@.len() {
                    assert(false);
                } else if x0 < old(self).values@.len() {
                    if x0 < mid.values@.len() && mid.pending_param(x0) {
                        assert(mid.values@[x0] == old(self).values@[x0]);
                    }
                }
            }
            assert forall|x0: int|
                0 <= x0 < old(self).values@.len() && #[trigger] old(self).pending_param(x0)
                    implies self.values@[x0] == old(self).values@[x0] by {
                assert(mid.values@[x0] == old(self).values@[x0]);
                assert(mid.pending_param(x0));
                assert(x0 != p as int);
            }
        }
        Ok(res)
    }

    /// Reads `var` in the current block: the SSA value the variable holds
    /// at this point of emission. Reading twice without an intervening
    /// `def_var` returns the identical value and leaves the state as it
    /// is.
    pub fn use_var(&mut self, var: usize) -> (r: Result<usize, SsaError>)
        requires
            old(self).wf(),
            old(self).collapsed(),
            old(self).current is Some,
        ensures
            reads_ok(*old(self), *final(self)),
            pending_kept(*old(self), *final(self)),
            old(self).var_ty(var as int) is None ==> r == Result::<usize, SsaError>::Err(
                SsaError::UndeclaredVariable,
            ) && *final(self) == *old(self),
            old(self).var_ty(var as int) is Some ==> (r is Err ==> r == Result::<
                usize,
                SsaError,
            >::Err(SsaError::UninitializedVariable)),
            old(self).var_ty(var as int) is Some ==> (old(self).cached_val(
                old(self).current->0 as int,
                var as int,
            ) matches Some(c) ==> *final(self) == *old(self) && r is Ok && r->Ok_0 as int == c),
            r is Ok ==> (r->Ok_0 as int) < final(self).nvalues() && !is_alias(
                final(self).values@[r->Ok_0 as int],
            ) && final(self).cached_val(old(self).current->0 as int, var as int) == Some(
                r->Ok_0 as int,
            ),
            old(self).var_ty(var as int) is Some && old(self).cached_val(
                old(self).current->0 as int,
                var as int,
            ) is None && old(self).blocks@[old(self).current->0 as int].sealed && old(self).blocks@[old(self).current->0 as int].preds@.len() == 1 && r is Ok ==> final(self).cached_val(old(self).current->0 as int, var as int) == final(self).cached_val(
                old(self).blocks@[old(self).current->0 as int].preds@[0] as int,
                var as int,
            ),
            old(self).var_ty(var as int) is Some && r is Err ==> has_uninit_path(
                *old(self),
                old(self).current->0 as int,
                var as int,
            ),
    {
        let cur = match self.current {
            Some(c) => c,
            None => 0,
        };
        if var >= self.var_types.len() {
            proof {
                lemma_evolves_refl(*old(self));
            }
            return Err(SsaError::UndeclaredVariable);
        }
        let known = self.var_types[var];
        match known {
            None => {
                proof {
                    lemma_evolves_refl(*old(self));
                }
                Err(SsaError::UndeclaredVariable)
            },
            Some(_) => self.read_var(cur, var),
        }
    }

    /// Marks the block sealed: its predecessor list is complete, and
    /// every placeholder parameter the block holds is wired now, with
    /// trivial merges rewritten away.
    pub fn seal_block(&mut self, b: usize) -> (r: Result<(), SsaError>)
        requires
            old(self).wf(),
            old(self).collapsed(),
            (b as int) < old(self).nblocks(),
        ensures
            final(self).wf(),
            final(self).collapsed(),
            old(self).blocks@[b as int].sealed <==> r == Result::<(), SsaError>::Err(
                SsaError::AlreadySealed,
            ),
            old(self).blocks@[b as int].sealed ==> *final(self) == *old(self),
            r is Err ==> r == Result::<(), SsaError>::Err(SsaError::AlreadySealed) || r
                == Result::<(), SsaError>::Err(SsaError::UninitializedVariable),
            !old(self).blocks@[b as int].sealed ==> final(self).blocks@[b as int].sealed && final(self).blocks@[b as int].preds@ == old(self).blocks@[b as int].preds@ && final(self).nblocks()
                == old(self).nblocks() && final(self).var_types@ == old(self).var_types@ && final(self).current == old(self).current,
            !old(self).blocks@[b as int].sealed ==> forall|bb: int|
                0 <= bb < old(self).nblocks() && bb != b as int ==> final(self).blocks@[bb] == old(self).blocks@[bb],
            r is Ok ==> forall|x: int|
                0 <= x < final(self).nvalues() && #[trigger] final(self).pending_param(x)
                    ==> vd_block(final(self).values@[x]) != b as int,
            !old(self).blocks@[b as int].sealed && (forall|x: int|
                0 <= x < old(self).nvalues() ==> !(#[trigger] old(self).pending_param(x)
                    && vd_block(old(self).values@[x]) == b as int)) ==> r is Ok,
            r == Result::<(), SsaError>::Err(SsaError::UninitializedVariable) ==> exists|x: int, k: int|
                0 <= x < old(self).nvalues() && #[trigger] old(self).pending_param(x) && vd_block(
                    old(self).values@[x],
                ) == b as int && 0 <= k < old(self).blocks@[b as int].preds@.len()
                    && has_uninit_path(
                    *old(self),
                    #[trigger] old(self).blocks@[b as int].preds@[k] as int,
                    vd_var(old(self).values@[x]),
                ),
            forall|bb: int, vv: int|
                0 <= bb < old(self).nblocks() && 0 <= vv < old(self).nvars() && !((
                #[trigger] old(self).spec_binding(bb, vv)) is Unresolved) ==> final(self).spec_binding(bb, vv) == old(self).spec_binding(bb, vv),
    {
        if self.blocks[b].sealed {
            return Err(SsaError::AlreadySealed);
        }
        self.blocks[b].sealed = true;
        proof {
            let nvars = self.var_types@.len() as int;
            assert forall|y: int| 0 <= y < self.values@.len() implies #[trigger] value_ok_v(
                self.values@,
                self.blocks@,
                nvars,
                y,
            ) by {
                assert(value_ok_v(old(self).values@, old(self).blocks@, nvars, y));
                if is_param(self.values@[y]) && vd_block(self.values@[y]) != b as int {
                    assert(self.blocks@[vd_block(self.values@[y])] == old(self).blocks@[vd_block(
                        self.values@[y],
                    )]);
                }
            }
        }
        let ghost s1 = *self;
        proof {
            lemma_evolves_refl(s1);
        }
        let n = self.values.len();
        let mut x: usize = 0;
        while x < n
            invariant
                s1.wf(),
                s1.collapsed(),
                self.wf(),
                self.collapsed(),
                evolves(s1, *self),
                x <= n,
                n as int == s1.nvalues(),
                n as int <= self.nvalues(),
                (b as int) < s1.nblocks(),
                s1.blocks@[b as int].sealed,
                !old(self).blocks@[b as int].sealed,
                s1.nblocks() == old(self).nblocks(),
                s1.blocks@[b as int].preds@ == old(self).blocks@[b as int].preds@,
                forall|bb: int|
                    0 <= bb < old(self).nblocks() && bb != b as int ==> #[trigger] s1.blocks@[bb]
                        == old(self).blocks@[bb],
                s1.var_types@ == old(self).var_types@,
                s1.current == old(self).current,
                s1.bindings@ == old(self).bindings@,
                s1.values@ == old(self).values@,
                (forall|y: int|
                    0 <= y < n as int ==> !(#[trigger] s1.pending_param(y) && vd_block(
                        s1.values@[y],
                    ) == b as int)) ==> *self == s1,
                forall|y: int|
                    0 <= y < x as int ==> !(#[trigger] self.pending_param(y) && vd_block(
                        self.values@[y],
                    ) == b as int),
                forall|y: int|
                    0 <= y < self.values@.len() && #[trigger] self.pending_param(y) ==> (y
                        < n as int && s1.pending_param(y) && self.values@[y] == s1.values@[y])
                        || !self.blocks@[vd_block(self.values@[y])].sealed,
            decreases n as int - x as int,
        {
            let is_pend_b = match &self.values[x] {
                ValueData::Param { block, wired, .. } => !*wired && *block == b,
                _ => false,
            };
            if is_pend_b {
                proof {
                    assert(value_ok_v(
                        self.values@,
                        self.blocks@,
                        self.var_types@.len() as int,
                        x as int,
                    ));
                    assert(self.pending_param(x as int));
                    assert(vd_block(self.values@[x as int]) == b as int);
                    if forall|y: int|
                        0 <= y < n as int ==> !(#[trigger] old(self).pending_param(y) && vd_block(
                            old(self).values@[y],
                        ) == b as int) {
                        assert forall|y: int|
                            0 <= y < n as int implies !(#[trigger] s1.pending_param(y) && vd_block(
                            s1.values@[y],
                        ) == b as int) by {
                            assert(s1.values@[y] == old(self).values@[y]);
                            assert(!(old(self).pending_param(y) && vd_block(old(self).values@[y])
                                == b as int));
                        }
                        assert(*self == s1);
                        assert(s1.pending_param(x as int) && vd_block(s1.values@[x as int])
                            == b as int);
                        assert(false);
                    }
                }
                let ghost mid = *self;
                match self.wire_param(x) {
                    Ok(_) => {
                        proof {
                            lemma_evolves_trans(s1, mid, *self);
                            assert forall|y: int|
                                0 <= y < self.values@.len() && #[trigger] self.pending_param(y)
                                    implies (y < n as int && s1.pending_param(y) && self.values@[y]
                                    == s1.values@[y]) || !self.blocks@[vd_block(
                                    self.values@[y],
                                )].sealed by {
                                if y < mid.values@.len() {
                                    if mid.pending_param(y) {
                                        assert(y != x as int);
                                        assert(self.values@[y] == mid.values@[y]);
                                    } else {
                                        assert(value_evolves(mid.values@[y], self.values@[y]));
                                        assert(false);
                                    }
                                }
                            }
                            assert forall|y: int|
                                0 <= y < x as int + 1 implies !(#[trigger] self.pending_param(y)
                                && vd_block(self.values@[y]) == b as int) by {
                                if self.pending_param(y) {
                                    if y < mid.values@.len() {
                                        assert(mid.pending_param(y) && self.values@[y]
                                            == mid.values@[y]);
                                    }
                                }
                            }
                        }
                    },
                    Err(e) => {
                        proof {
                            // The wiring of this placeholder failed on a
                            // predecessor whose uninitialized path was
                            // already there before the block was sealed.
                            let varx = vd_var(mid.values@[x as int]);
                            let k = choose|k: int|
                                0 <= k < mid.blocks@[b as int].preds@.len() && has_uninit_path(
                                    mid,
                                    #[trigger] mid.blocks@[b as int].preds@[k] as int,
                                    varx,
                                );
                            let chain = choose|c: Seq<int>|
                                #[trigger] uninit_chain(mid, c, varx) && c[0]
                                    == mid.blocks@[b as int].preds@[k] as int;
                            assert(value_ok_v(
                                mid.values@,
                                mid.blocks@,
                                mid.var_types@.len() as int,
                                x as int,
                            ));
                            lemma_chain_back_evolves(s1, mid, chain, varx);
                            assert(s1.blocks@[b as int].preds@.len() >= 1);
                            assert(s1.blocks@[chain.last()].preds@.len() == 0);
                            assert(chain.last() != b as int);
                            lemma_chain_back_seal_flag(*old(self), s1, b as int, chain, varx);
                            // The placeholder already existed before the
                            // call, for the same block and variable.
                            assert(value_evolves(s1.values@[x as int], mid.values@[x as int]));
                            assert(s1.pending_param(x as int));
                            assert(s1.values@[x as int] == old(self).values@[x as int]);
                            assert(old(self).pending_param(x as int));
                            assert(vd_var(old(self).values@[x as int]) == varx);
                            assert(vd_block(old(self).values@[x as int]) == b as int);
                            assert(old(self).blocks@[b as int].preds@
                                == s1.blocks@[b as int].preds@);
                            assert(uninit_chain(*old(self), chain, varx));
                            assert(has_uninit_path(
                                *old(self),
                                old(self).blocks@[b as int].preds@[k] as int,
                                varx,
                            ));
                        }
                        return Err(e);
                    },
                }
            }
            x += 1;
        }
        proof {
            assert forall|y: int|
                0 <= y < self.values@.len() && #[trigger] self.pending_param(y) implies vd_block(
                self.values@[y],
            ) != b as int by {
                if y >= n as int {
                    assert(!self.blocks@[vd_block(self.values@[y])].sealed);
                }
            }
        }
        Ok(())
    }

    /// Checks the finished build: every block must be sealed, and no
    /// placeholder may be left unwired. On success, every cached
    /// resolution of every (block, variable) pair refers to a minted
    /// value or a wired block parameter — never to a bare placeholder.
    pub fn finalize(&self) -> (r: Result<(), SsaError>)
        requires
            self.wf(),
        ensures
            r is Ok <==> (forall|bb: int| 0 <= bb < self.nblocks() ==> self.blocks@[bb].sealed)
                && (forall|x: int| 0 <= x < self.nvalues() ==> !self.pending_param(x)),
            (exists|bb: int| 0 <= bb < self.nblocks() && !self.blocks@[bb].sealed) ==> r
                == Result::<(), SsaError>::Err(SsaError::UnsealedBlockAtFinalize),
            r is Err ==> r == Result::<(), SsaError>::Err(SsaError::UnsealedBlockAtFinalize) || r
                == Result::<(), SsaError>::Err(SsaError::UninitializedVariable),
            r is Ok ==> forall|bb: int, vv: int|
                0 <= bb < self.nblocks() && 0 <= vv < self.nvars() && (#[trigger] self.cached_val(
                    bb,
                    vv,
                )) is Some ==> self.concrete(self.cached_val(bb, vv)->0),
    {
        let nb = self.blocks.len();
        let mut bb: usize = 0;
        while bb < nb
            invariant
                self.wf(),
                bb <= nb,
                nb as int == self.nblocks(),
                forall|y: int| 0 <= y < bb as int ==> self.blocks@[y].sealed,
            decreases nb as int - bb as int,
        {
            if !self.blocks[bb].sealed {
                return Err(SsaError::UnsealedBlockAtFinalize);
            }
            bb += 1;
        }
        let nv = self.values.len();
        let mut x: usize = 0;
        while x < nv
            invariant
                self.wf(),
                x <= nv,
                nv as int == self.nvalues(),
                forall|y: int| 0 <= y < self.nblocks() ==> self.blocks@[y].sealed,
                forall|y: int| 0 <= y < x as int ==> !self.pending_param(y),
            decreases nv as int - x as int,
        {
            let pend = match &self.values[x] {
                ValueData::Param { wired, .. } => !*wired,
                _ => false,
            };
            if pend {
                proof {
                    assert(self.pending_param(x as int));
                }
                return Err(SsaError::UninitializedVariable);
            }
            x += 1;
        }
        proof {
            assert forall|b2: int, v2: int|
                0 <= b2 < self.nblocks() && 0 <= v2 < self.nvars() && (#[trigger] self.cached_val(
                    b2,
                    v2,
                )) is Some implies self.concrete(self.cached_val(b2, v2)->0) by {
                assert(binding_ok_b(self.bindings@[b2]@[v2], self.values@.len() as int));
                let raw = bnd_val(self.bindings@[b2]@[v2]);
                assert(value_ok_v(self.values@, self.blocks@, self.var_types@.len() as int, raw));
                let c = canon_v(self.values@, raw);
                assert(!is_alias(self.values@[c]));
                assert(!self.pending_param(c));
            }
        }
        Ok(())
    }

    /// The declared type of a variable, or a failure when it was never
    /// declared.
    pub fn var_type(&self, var: usize) -> (r: Result<u32, SsaError>)
        requires
            self.wf(),
        ensures
            r is Ok <==> self.var_ty(var as int) is Some,
            r is Ok ==> Some(r->Ok_0) == self.var_ty(var as int),
            r is Err ==> r == Result::<u32, SsaError>::Err(SsaError::UndeclaredVariable),
    {
        if var < self.var_types.len() {
            match self.var_types[var] {
                Some(t) => Ok(t),
                None => Err(SsaError::UndeclaredVariable),
            }
        } else {
            Err(SsaError::UndeclaredVariable)
        }
    }

    /// The incoming values of a wired block parameter, one per
    /// predecessor in predecessor order, each resolved to its
    /// representative.
    pub fn param_incoming(&self, p: usize) -> (r: Vec<usize>)
        requires
            self.wf(),
            (p as int) < self.nvalues(),
            is_param(self.values@[p as int]),
        ensures
            r@.len() == vd_ops(self.values@[p as int]).len(),
            forall|j: int|
                0 <= j < r@.len() ==> (#[trigger] r@[j] as int) == canon_v(
                    self.values@,
                    vd_ops(self.values@[p as int])[j] as int,
                ),
    {
        let n = self.param_num_ops(p);
        let mut r: Vec<usize> = Vec::new();
        let mut j: usize = 0;
        while j < n
            invariant
                self.wf(),
                (p as int) < self.nvalues(),
                is_param(self.values@[p as int]),
                n as int == vd_ops(self.values@[p as int]).len(),
                j <= n,
                r@.len() == j as int,
                forall|k: int|
                    0 <= k < j as int ==> (#[trigger] r@[k] as int) == canon_v(
                        self.values@,
                        vd_ops(self.values@[p as int])[k] as int,
                    ),
            decreases n as int - j as int,
        {
            let op = self.param_op(p, j);
            let c = self.resolve_value(op);
            r.push(c);
            j += 1;
        }
        r
    }

    /// The parameters a block owns, in creation order.
    pub fn block_params(&self, b: usize) -> (r: Vec<usize>)
        requires
            self.wf(),
            (b as int) < self.nblocks(),
        ensures
            forall|j: int|
                0 <= j < r@.len() ==> (#[trigger] r@[j] as int) < self.nvalues() && is_param(
                    self.values@[r@[j] as int],
                ) && vd_block(self.values@[r@[j] as int]) == b as int,
            forall|x: int|
                0 <= x < self.nvalues() && is_param(#[trigger] self.values@[x]) && vd_block(
                    self.values@[x],
                ) == b as int ==> exists|j: int| 0 <= j < r@.len() && #[trigger] r@[j] as int == x,
            forall|j: int| 0 <= j < r@.len() - 1 ==> #[trigger] r@[j] < r@[j + 1],
    {
        let n = self.values.len();
        let mut r: Vec<usize> = Vec::new();
        let mut x: usize = 0;
        while x < n
            invariant
                self.wf(),
                (b as int) < self.nblocks(),
                x <= n,
                n as int == self.nvalues(),
                forall|j: int|
                    0 <= j < r@.len() ==> (#[trigger] r@[j] as int) < self.nvalues() && is_param(
                        self.values@[r@[j] as int],
                    ) && vd_block(self.values@[r@[j] as int]) == b as int,
                forall|j: int| 0 <= j < r@.len() ==> (#[trigger] r@[j] as int) < x as int,
                forall|y: int|
                    0 <= y < x as int && is_param(#[trigger] self.values@[y]) && vd_block(
                        self.values@[y],
                    ) == b as int ==> exists|j: int|
                        0 <= j < r@.len() && #[trigger] r@[j] as int == y,
                forall|j: int| 0 <= j < r@.len() - 1 ==> #[trigger] r@[j] < r@[j + 1],
            decreases n as int - x as int,
        {
            let found = match &self.values[x] {
                ValueData::Param { block, .. } => *block == b,
                _ => false,
            };
            let ghost rold = r@;
            if found {
                r.push(x);
            }
            proof {
                assert forall|y: int|
                    0 <= y < x as int + 1 && is_param(#[trigger] self.values@[y]) && vd_block(
                        self.values@[y],
                    ) == b as int implies exists|j: int|
                    0 <= j < r@.len() && #[trigger] r@[j] as int == y by {
                    if y == x as int {
                        assert(r@[rold.len() as int] as int == y);
                    } else {
                        let j0 = choose|j: int| 0 <= j < rold.len() && #[trigger] rold[j] as int == y;
                        assert(r@[j0] == rold[j0]);
                    }
                }
            }
            x += 1;
        }
        r
    }

    /// Does the block own any parameter, placeholder or wired? What a
    /// caller observes after resolution: a single-predecessor block or a
    /// collapsed loop header owns none.
    pub fn block_has_param(&self, b: usize) -> (r: bool)
        requires
            self.wf(),
            (b as int) < self.nblocks(),
        ensures
            r <==> exists|x: int|
                0 <= x < self.nvalues() && is_param(#[trigger] self.values@[x]) && vd_block(
                    self.values@[x],
                ) == b as int,
    {
        let n = self.values.len();
        let mut x: usize = 0;
        while x < n
            invariant
                self.wf(),
                x <= n,
                n as int == self.nvalues(),
                (b as int) < self.nblocks(),
                forall|y: int|
                    0 <= y < x as int ==> !(is_param(#[trigger] self.values@[y]) && vd_block(
                        self.values@[y],
                    ) == b as int),
            decreases n as int - x as int,
        {
            let found = match &self.values[x] {
                ValueData::Param { block, .. } => *block == b,
                _ => false,
            };
            if found {
                return true;
            }
            x += 1;
        }
        false
    }
}

}
