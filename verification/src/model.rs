//! Specification-level models of the document entities: plain ghost
//! shapes over character sequences, together with the lookup, insert
//! and well-formedness notions for the key/value and node collections.

use vstd::prelude::*;

use crate::value::ValueModel;

verus! {

// ---------------------------------------------------------------------------
// Models of the record types
// ---------------------------------------------------------------------------

#[verifier::ext_equal]
pub ghost struct MetaModel {
    pub topic: Option<Seq<char>>,
    pub description: Option<Seq<char>>,
    pub author: Option<Seq<char>>,
    pub version: Option<Seq<char>>,
    pub required: Option<Seq<Seq<char>>>,
}

pub open spec fn meta_empty() -> MetaModel {
    MetaModel {
        topic: None,
        description: None,
        author: None,
        version: None,
        required: None,
    }
}

#[verifier::ext_equal]
pub ghost enum ContentModel {
    CText(Seq<char>),
    CVar(Seq<char>),
    CCall { name: Seq<char>, results: Seq<Seq<char>> },
}

#[verifier::ext_equal]
pub ghost enum DestModel {
    DNode(Seq<char>),
    DFile { file: Seq<char>, node: Seq<char> },
    DExit,
}

#[verifier::ext_equal]
pub ghost struct OptionModel {
    pub keywords: Seq<Seq<char>>,
    pub dest: DestModel,
    pub cond: Option<Seq<char>>,
}

#[verifier::ext_equal]
pub ghost struct NodeModel {
    pub name: Seq<char>,
    pub content: Seq<ContentModel>,
    pub options: Seq<OptionModel>,
}

#[verifier::ext_equal]
pub ghost struct DocModel {
    pub metadata: MetaModel,
    pub global: Option<Seq<(Seq<char>, ValueModel)>>,
    pub local: Seq<(Seq<char>, ValueModel)>,
    pub nodes: Seq<NodeModel>,
}

// ---------------------------------------------------------------------------
// Key/value entry sequences
// ---------------------------------------------------------------------------

/// Whether the entry sequence holds `k`.
pub open spec fn vm_has(m: Seq<(Seq<char>, ValueModel)>, k: Seq<char>) -> bool
    decreases m.len(),
{
    if m.len() == 0 {
        false
    } else {
        m[0].0 == k || vm_has(m.drop_first(), k)
    }
}

/// The value bound to `k`, provided `vm_has(m, k)`.
pub open spec fn vm_get(m: Seq<(Seq<char>, ValueModel)>, k: Seq<char>) -> ValueModel
    decreases m.len(),
{
    if m.len() == 0 {
        ValueModel::VEmpty
    } else if m[0].0 == k {
        m[0].1
    } else {
        vm_get(m.drop_first(), k)
    }
}

/// Bind `k` to `v`: replace the entry holding `k` in place, or append a
/// fresh entry when `k` is absent.
pub open spec fn vm_insert(
    m: Seq<(Seq<char>, ValueModel)>,
    k: Seq<char>,
    v: ValueModel,
) -> Seq<(Seq<char>, ValueModel)>
    decreases m.len(),
{
    if m.len() == 0 {
        seq![(k, v)]
    } else if m[0].0 == k {
        seq![(k, v)] + m.drop_first()
    } else {
        seq![m[0]] + vm_insert(m.drop_first(), k, v)
    }
}

/// Keys are pairwise distinct.
pub open spec fn vm_wf(m: Seq<(Seq<char>, ValueModel)>) -> bool
    decreases m.len(),
{
    m.len() == 0 || (!vm_has(m.drop_first(), m[0].0) && vm_wf(m.drop_first()))
}

pub proof fn lemma_vm_insert_has(
    m: Seq<(Seq<char>, ValueModel)>,
    k: Seq<char>,
    v: ValueModel,
    x: Seq<char>,
)
    ensures
        vm_has(vm_insert(m, k, v), x) == (x == k || vm_has(m, x)),
    decreases m.len(),
{
    let r = vm_insert(m, k, v);
    if m.len() == 0 {
        assert(r =~= seq![(k, v)]);
        assert(r[0] == (k, v));
        assert(r.drop_first() =~= Seq::<(Seq<char>, ValueModel)>::empty());
        assert(vm_has(r, x) == (r[0].0 == x || vm_has(r.drop_first(), x)));
    } else if m[0].0 == k {
        assert(r[0] == (k, v));
        assert(r.drop_first() =~= m.drop_first());
        assert(vm_has(r, x) == (r[0].0 == x || vm_has(r.drop_first(), x)));
    } else {
        lemma_vm_insert_has(m.drop_first(), k, v, x);
        assert(r[0] == m[0]);
        assert(r.drop_first() =~= vm_insert(m.drop_first(), k, v));
        assert(vm_has(r, x) == (r[0].0 == x || vm_has(r.drop_first(), x)));
    }
}

pub proof fn lemma_vm_insert_wf(m: Seq<(Seq<char>, ValueModel)>, k: Seq<char>, v: ValueModel)
    requires
        vm_wf(m),
    ensures
        vm_wf(vm_insert(m, k, v)),
    decreases m.len(),
{
    let r = vm_insert(m, k, v);
    if m.len() == 0 {
        assert(r =~= seq![(k, v)]);
        assert(r.drop_first() =~= Seq::<(Seq<char>, ValueModel)>::empty());
        assert(!vm_has(r.drop_first(), r[0].0));
        assert(vm_wf(r.drop_first()));
        assert(vm_wf(r));
    } else if m[0].0 == k {
        assert(r[0] == (k, v));
        assert(r.drop_first() =~= m.drop_first());
        assert(!vm_has(r.drop_first(), r[0].0));
        assert(vm_wf(r));
    } else {
        lemma_vm_insert_wf(m.drop_first(), k, v);
        lemma_vm_insert_has(m.drop_first(), k, v, m[0].0);
        assert(r[0] == m[0]);
        assert(r.drop_first() =~= vm_insert(m.drop_first(), k, v));
        assert(!vm_has(r.drop_first(), r[0].0));
        assert(vm_wf(r));
    }
}

/// When `k` first occurs at `i`, the insert is an in-place update.
pub proof fn lemma_vm_insert_at(
    m: Seq<(Seq<char>, ValueModel)>,
    k: Seq<char>,
    v: ValueModel,
    i: int,
)
    requires
        0 <= i < m.len(),
        m[i].0 == k,
        forall|j: int| 0 <= j < i ==> m[j].0 != k,
    ensures
        vm_insert(m, k, v) =~= m.update(i, (k, v)),
    decreases i,
{
    if i == 0 {
        assert(seq![(k, v)] + m.drop_first() =~= m.update(0, (k, v)));
    } else {
        assert(forall|j: int| 0 <= j < i - 1 ==> m.drop_first()[j].0 != k);
        lemma_vm_insert_at(m.drop_first(), k, v, i - 1);
        assert(seq![m[0]] + m.drop_first().update(i - 1, (k, v)) =~= m.update(i, (k, v)));
    }
}

/// When `k` is absent, the insert is an append.
pub proof fn lemma_vm_insert_absent(m: Seq<(Seq<char>, ValueModel)>, k: Seq<char>, v: ValueModel)
    requires
        forall|j: int| 0 <= j < m.len() ==> m[j].0 != k,
    ensures
        vm_insert(m, k, v) =~= m.push((k, v)),
    decreases m.len(),
{
    if m.len() == 0 {
    } else {
        assert(forall|j: int| 0 <= j < m.len() - 1 ==> m.drop_first()[j].0 != k);
        lemma_vm_insert_absent(m.drop_first(), k, v);
        assert(seq![m[0]] + m.drop_first().push((k, v)) =~= m.push((k, v)));
    }
}

// ---------------------------------------------------------------------------
// Node sequences
// ---------------------------------------------------------------------------

/// Whether a node of the given name is present.
pub open spec fn nt_has(m: Seq<NodeModel>, name: Seq<char>) -> bool
    decreases m.len(),
{
    if m.len() == 0 {
        false
    } else {
        m[0].name == name || nt_has(m.drop_first(), name)
    }
}

/// The first node of the given name, provided `nt_has(m, name)`.
pub open spec fn nt_get(m: Seq<NodeModel>, name: Seq<char>) -> NodeModel
    decreases m.len(),
{
    if m.len() == 0 {
        NodeModel { name: Seq::empty(), content: Seq::empty(), options: Seq::empty() }
    } else if m[0].name == name {
        m[0]
    } else {
        nt_get(m.drop_first(), name)
    }
}

/// Node names are pairwise distinct.
pub open spec fn nt_wf(m: Seq<NodeModel>) -> bool
    decreases m.len(),
{
    m.len() == 0 || (!nt_has(m.drop_first(), m[0].name) && nt_wf(m.drop_first()))
}

pub proof fn lemma_nt_has_push(m: Seq<NodeModel>, n: NodeModel, x: Seq<char>)
    ensures
        nt_has(m.push(n), x) == (nt_has(m, x) || n.name == x),
    decreases m.len(),
{
    let r = m.push(n);
    if m.len() == 0 {
        assert(r[0] == n);
        assert(r.drop_first() =~= Seq::<NodeModel>::empty());
        assert(nt_has(r, x) == (r[0].name == x || nt_has(r.drop_first(), x)));
    } else {
        lemma_nt_has_push(m.drop_first(), n, x);
        assert(r[0] == m[0]);
        assert(r.drop_first() =~= m.drop_first().push(n));
        assert(nt_has(r, x) == (r[0].name == x || nt_has(r.drop_first(), x)));
    }
}

pub proof fn lemma_nt_wf_push(m: Seq<NodeModel>, n: NodeModel)
    requires
        nt_wf(m),
        !nt_has(m, n.name),
    ensures
        nt_wf(m.push(n)),
    decreases m.len(),
{
    let r = m.push(n);
    if m.len() == 0 {
        assert(r[0] == n);
        assert(r.drop_first() =~= Seq::<NodeModel>::empty());
        assert(!nt_has(r.drop_first(), r[0].name));
        assert(nt_wf(r.drop_first()));
        assert(nt_wf(r));
    } else {
        assert(m[0].name != n.name);
        lemma_nt_wf_push(m.drop_first(), n);
        lemma_nt_has_push(m.drop_first(), n, m[0].name);
        assert(r[0] == m[0]);
        assert(r.drop_first() =~= m.drop_first().push(n));
        assert(!nt_has(r.drop_first(), r[0].name));
        assert(nt_wf(r.drop_first()));
        assert(nt_wf(r));
    }
}

} // verus!
