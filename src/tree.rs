use vstd::prelude::*;
use crate::value::{ScalarValue, ValueView};
use crate::key::{CompoundKey, Key, KeyView};
use crate::error::ConfigurationError;

verus! {

/// A node of a configuration: a scalar, a mapping from names to subtrees that
/// keeps insertion order, or a sequence of subtrees.
#[derive(Debug, PartialEq)]
pub enum ConfigurationTree {
    Scalar(ScalarValue),
    Mapping(Vec<(String, ConfigurationTree)>),
    Sequence(Vec<ConfigurationTree>),
}

/// Mathematical model of a [`ConfigurationTree`].
pub ghost enum TreeView {
    Leaf(ValueView),
    Mapping(Seq<(Seq<char>, TreeView)>),
    Sequence(Seq<TreeView>),
}

pub open spec fn entries_view(es: Seq<(String, ConfigurationTree)>) -> Seq<(Seq<char>, TreeView)>
    decreases es,
{
    if es.len() == 0 {
        seq![]
    } else {
        let last = es[es.len() - 1];
        entries_view(es.subrange(0, es.len() - 1)).push((last.0@, tree_view(last.1)))
    }
}

pub open spec fn items_view(ts: Seq<ConfigurationTree>) -> Seq<TreeView>
    decreases ts,
{
    if ts.len() == 0 {
        seq![]
    } else {
        items_view(ts.subrange(0, ts.len() - 1)).push(tree_view(ts[ts.len() - 1]))
    }
}

pub open spec fn tree_view(t: ConfigurationTree) -> TreeView
    decreases t,
{
    match t {
        ConfigurationTree::Scalar(v) => TreeView::Leaf(v@),
        ConfigurationTree::Mapping(es) => TreeView::Mapping(entries_view(es@)),
        ConfigurationTree::Sequence(ts) => TreeView::Sequence(items_view(ts@)),
    }
}

impl View for ConfigurationTree {
    type V = TreeView;

    open spec fn view(&self) -> TreeView {
        tree_view(*self)
    }
}

/// The subtree stored under `k`, the last entry with that name winning.
pub open spec fn lookup(es: Seq<(Seq<char>, TreeView)>, k: Seq<char>) -> Option<TreeView>
    decreases es.len(),
{
    if es.len() == 0 {
        None
    } else if es[es.len() - 1].0 == k {
        Some(es[es.len() - 1].1)
    } else {
        lookup(es.subrange(0, es.len() - 1), k)
    }
}

/// The names in `es` are pairwise distinct.
pub open spec fn keys_unique(es: Seq<(Seq<char>, TreeView)>) -> bool {
    forall|i: int, j: int| 0 <= i < j < es.len() ==> es[i].0 != es[j].0
}

/// Every mapping in `t` has pairwise distinct names.
pub open spec fn well_formed(t: TreeView) -> bool
    decreases t,
{
    match t {
        TreeView::Leaf(_) => true,
        TreeView::Mapping(es) => keys_unique(es) && forall|i: int|
            0 <= i < es.len() ==> well_formed(#[trigger] es[i].1),
        TreeView::Sequence(ts) => forall|i: int| 0 <= i < ts.len() ==> well_formed(#[trigger] ts[i]),
    }
}

/// `t` is merged with `u`, `u` taking precedence: two mappings are merged key by
/// key, anything else is replaced by `u` as a whole.
pub open spec fn merge(t: TreeView, u: TreeView) -> TreeView
    decreases t,
{
    match (t, u) {
        (TreeView::Mapping(a), TreeView::Mapping(b)) => TreeView::Mapping(
            merge_entries(a, b) + new_entries(b, a),
        ),
        _ => u,
    }
}

/// The entries of `a`, in order, each merged with the entry of `b` of the same name.
pub open spec fn merge_entries(
    a: Seq<(Seq<char>, TreeView)>,
    b: Seq<(Seq<char>, TreeView)>,
) -> Seq<(Seq<char>, TreeView)>
    decreases a,
{
    if a.len() == 0 {
        seq![]
    } else {
        let e = a[a.len() - 1];
        let merged = match lookup(b, e.0) {
            Some(v) => merge(e.1, v),
            None => e.1,
        };
        merge_entries(a.subrange(0, a.len() - 1), b).push((e.0, merged))
    }
}

/// The entries of `b`, in order, whose names `a` lacks.
pub open spec fn new_entries(
    b: Seq<(Seq<char>, TreeView)>,
    a: Seq<(Seq<char>, TreeView)>,
) -> Seq<(Seq<char>, TreeView)>
    decreases b.len(),
{
    if b.len() == 0 {
        seq![]
    } else {
        let rest = new_entries(b.subrange(0, b.len() - 1), a);
        if lookup(a, b[b.len() - 1].0) is None {
            rest.push(b[b.len() - 1])
        } else {
            rest
        }
    }
}

/// Folds `merge` over `ts` from left to right; `None` for no trees.
pub open spec fn merge_all(ts: Seq<TreeView>) -> Option<TreeView>
    decreases ts.len(),
{
    if ts.len() == 0 {
        None
    } else {
        match merge_all(ts.subrange(0, ts.len() - 1)) {
            Some(m) => Some(merge(m, ts[ts.len() - 1])),
            None => Some(ts[ts.len() - 1]),
        }
    }
}


pub proof fn lemma_entries_view_push(es: Seq<(String, ConfigurationTree)>, e: (String, ConfigurationTree))
    ensures
        entries_view(es.push(e)) == entries_view(es).push((e.0@, tree_view(e.1))),
{
    assert(es.push(e).subrange(0, es.len() as int) =~= es);
}

pub proof fn lemma_items_view_push(ts: Seq<ConfigurationTree>, t: ConfigurationTree)
    ensures
        items_view(ts.push(t)) == items_view(ts).push(tree_view(t)),
{
    assert(ts.push(t).subrange(0, ts.len() as int) =~= ts);
}

pub proof fn lemma_entries_view_index(es: Seq<(String, ConfigurationTree)>)
    ensures
        entries_view(es).len() == es.len(),
        forall|i: int| 0 <= i < es.len() ==> #[trigger] entries_view(es)[i] == (es[i].0@, tree_view(es[i].1)),
    decreases es.len(),
{
    if es.len() > 0 {
        let pre = es.subrange(0, es.len() - 1);
        lemma_entries_view_index(pre);
        assert forall|i: int| 0 <= i < es.len() implies #[trigger] entries_view(es)[i] == (es[i].0@, tree_view(es[i].1)) by {
            if i < es.len() - 1 {
                assert(pre[i] == es[i]);
            }
        }
    }
}

pub proof fn lemma_entries_view_prefix(es: Seq<(String, ConfigurationTree)>, i: int)
    requires
        0 <= i < es.len(),
    ensures
        entries_view(es.subrange(0, i + 1)) == entries_view(es.subrange(0, i)).push((es[i].0@, tree_view(es[i].1))),
{
    assert(es.subrange(0, i + 1) =~= es.subrange(0, i).push(es[i]));
    lemma_entries_view_push(es.subrange(0, i), es[i]);
}

pub proof fn lemma_merge_entries_push(
    a: Seq<(Seq<char>, TreeView)>,
    e: (Seq<char>, TreeView),
    b: Seq<(Seq<char>, TreeView)>,
)
    ensures
        merge_entries(a.push(e), b) == merge_entries(a, b).push((e.0, match lookup(b, e.0) {
            Some(v) => merge(e.1, v),
            None => e.1,
        })),
{
    assert(a.push(e).subrange(0, a.len() as int) =~= a);
}

pub proof fn lemma_new_entries_push(
    b: Seq<(Seq<char>, TreeView)>,
    e: (Seq<char>, TreeView),
    a: Seq<(Seq<char>, TreeView)>,
)
    ensures
        new_entries(b.push(e), a) == if lookup(a, e.0) is None {
            new_entries(b, a).push(e)
        } else {
            new_entries(b, a)
        },
{
    assert(b.push(e).subrange(0, b.len() as int) =~= b);
}

/// Finds the subtree stored under `k` in `es`.
pub fn lookup_entry<'a>(es: &'a Vec<(String, ConfigurationTree)>, k: &String) -> (r: Option<&'a ConfigurationTree>)
    ensures
        r matches Some(t) ==> lookup(entries_view(es@), k@) == Some(t@),
        r is None ==> lookup(entries_view(es@), k@) is None,
{
    let mut i: usize = es.len();
    proof {
        assert(es@.subrange(0, es@.len() as int) =~= es@);
    }
    while i > 0
        invariant
            i <= es@.len(),
            lookup(entries_view(es@), k@) == lookup(entries_view(es@.subrange(0, i as int)), k@),
        decreases i,
    {
        let ghost pre = entries_view(es@.subrange(0, i - 1));
        proof {
            lemma_entries_view_prefix(es@, i - 1);
            let cur = entries_view(es@.subrange(0, i as int));
            assert(cur =~= pre.push((es@[i - 1].0@, tree_view(es@[i - 1].1))));
            assert(cur.subrange(0, cur.len() - 1) =~= pre);
        }
        if es[i - 1].0 == *k {
            return Some(&es[i - 1].1);
        }
        i = i - 1;
    }
    None
}

impl ConfigurationTree {
    /// A copy of this tree.
    pub fn deep_clone(&self) -> (r: ConfigurationTree)
        ensures
            r@ == self@,
        decreases self,
    {
        match self {
            ConfigurationTree::Scalar(v) => ConfigurationTree::Scalar(v.duplicate()),
            ConfigurationTree::Mapping(es) => {
                let mut out: Vec<(String, ConfigurationTree)> = Vec::new();
                let mut i: usize = 0;
                while i < es.len()
                    invariant
                        i <= es@.len(),
                        *self == ConfigurationTree::Mapping(*es),
                        entries_view(out@) == entries_view(es@.subrange(0, i as int)),
                    decreases es@.len() - i,
                {
                    proof {
                        assert(decreases_to!(self => self->Mapping_0));
                        assert(self->Mapping_0 == *es);
                        assert(decreases_to!(es => es@));
                        assert(decreases_to!(es@ => es@[i as int]));
                        assert(decreases_to!(es@[i as int] => es@[i as int].1));
                    }
                    let c = es[i].1.deep_clone();
                    let k = es[i].0.clone();
                    proof {
                        lemma_entries_view_push(out@, (k, c));
                        lemma_entries_view_prefix(es@, i as int);
                    }
                    out.push((k, c));
                    i = i + 1;
                }
                assert(es@.subrange(0, es@.len() as int) =~= es@);
                ConfigurationTree::Mapping(out)
            },
            ConfigurationTree::Sequence(ts) => {
                let mut out: Vec<ConfigurationTree> = Vec::new();
                let mut i: usize = 0;
                while i < ts.len()
                    invariant
                        i <= ts@.len(),
                        *self == ConfigurationTree::Sequence(*ts),
                        items_view(out@) == items_view(ts@.subrange(0, i as int)),
                    decreases ts@.len() - i,
                {
                    proof {
                        assert(decreases_to!(self => self->Sequence_0));
                        assert(self->Sequence_0 == *ts);
                        assert(decreases_to!(ts => ts@));
                        assert(decreases_to!(ts@ => ts@[i as int]));
                    }
                    let c = ts[i].deep_clone();
                    proof {
                        lemma_items_view_push(out@, c);
                        assert(ts@.subrange(0, i + 1) =~= ts@.subrange(0, i as int).push(ts@[i as int]));
                        lemma_items_view_push(ts@.subrange(0, i as int), ts@[i as int]);
                    }
                    out.push(c);
                    i = i + 1;
                }
                assert(ts@.subrange(0, ts@.len() as int) =~= ts@);
                ConfigurationTree::Sequence(out)
            },
        }
    }

    /// Merges `other` into a copy of this tree, `other` taking precedence.
    pub fn merge_with(&self, other: &ConfigurationTree) -> (r: ConfigurationTree)
        ensures
            r@ == merge(self@, other@),
        decreases self,
    {
        match (self, other) {
            (ConfigurationTree::Mapping(a), ConfigurationTree::Mapping(b)) => {
                let ghost av = entries_view(a@);
                let ghost bv = entries_view(b@);
                let mut out: Vec<(String, ConfigurationTree)> = Vec::new();
                let mut i: usize = 0;
                while i < a.len()
                    invariant
                        i <= a@.len(),
                        *self == ConfigurationTree::Mapping(*a),
                        av == entries_view(a@),
                        bv == entries_view(b@),
                        entries_view(out@) == merge_entries(entries_view(a@.subrange(0, i as int)), bv),
                    decreases a@.len() - i,
                {
                    proof {
                        assert(decreases_to!(self => self->Mapping_0));
                        assert(self->Mapping_0 == *a);
                        assert(decreases_to!(a => a@));
                        assert(decreases_to!(a@ => a@[i as int]));
                        assert(decreases_to!(a@[i as int] => a@[i as int].1));
                    }
                    let m = match lookup_entry(b, &a[i].0) {
                        Some(w) => a[i].1.merge_with(w),
                        None => a[i].1.deep_clone(),
                    };
                    let k = a[i].0.clone();
                    proof {
                        lemma_entries_view_push(out@, (k, m));
                        lemma_entries_view_prefix(a@, i as int);
                        lemma_merge_entries_push(
                            entries_view(a@.subrange(0, i as int)),
                            (a@[i as int].0@, tree_view(a@[i as int].1)),
                            bv,
                        );
                    }
                    out.push((k, m));
                    i = i + 1;
                }
                assert(a@.subrange(0, a@.len() as int) =~= a@);
                let ghost left = entries_view(out@);
                let mut j: usize = 0;
                while j < b.len()
                    invariant
                        j <= b@.len(),
                        av == entries_view(a@),
                        bv == entries_view(b@),
                        entries_view(out@) == left + new_entries(entries_view(b@.subrange(0, j as int)), av),
                    decreases b@.len() - j,
                {
                    proof {
                        lemma_entries_view_prefix(b@, j as int);
                        lemma_new_entries_push(
                            entries_view(b@.subrange(0, j as int)),
                            (b@[j as int].0@, tree_view(b@[j as int].1)),
                            av,
                        );
                    }
                    if lookup_entry(a, &b[j].0).is_none() {
                        let k = b[j].0.clone();
                        let c = b[j].1.deep_clone();
                        proof {
                            lemma_entries_view_push(out@, (k, c));
                        }
                        out.push((k, c));
                    }
                    j = j + 1;
                }
                assert(b@.subrange(0, b@.len() as int) =~= b@);
                ConfigurationTree::Mapping(out)
            },
            _ => other.deep_clone(),
        }
    }
}


/// The child of `t` addressed by `k`: a field of a mapping or an in-range
/// element of a sequence.
pub open spec fn descend(t: TreeView, k: KeyView) -> Option<TreeView> {
    match (t, k) {
        (TreeView::Mapping(es), KeyView::Field(name)) => lookup(es, name),
        (TreeView::Sequence(ts), KeyView::Index(i)) => if i < ts.len() {
            Some(ts[i as int])
        } else {
            None
        },
        _ => None,
    }
}

/// Follows `ks` from `t`, one segment after another; `None` as soon as one fails.
pub open spec fn descend_many(t: TreeView, ks: Seq<KeyView>) -> Option<TreeView>
    decreases ks.len(),
{
    if ks.len() == 0 {
        Some(t)
    } else {
        match descend(t, ks[0]) {
            Some(c) => descend_many(c, ks.subrange(1, ks.len() as int)),
            None => None,
        }
    }
}

pub proof fn lemma_items_view_index(ts: Seq<ConfigurationTree>)
    ensures
        items_view(ts).len() == ts.len(),
        forall|i: int| 0 <= i < ts.len() ==> #[trigger] items_view(ts)[i] == tree_view(ts[i]),
    decreases ts.len(),
{
    if ts.len() > 0 {
        let pre = ts.subrange(0, ts.len() - 1);
        lemma_items_view_index(pre);
        assert forall|i: int| 0 <= i < ts.len() implies #[trigger] items_view(ts)[i] == tree_view(ts[i]) by {
            if i < ts.len() - 1 {
                assert(pre[i] == ts[i]);
            }
        }
    }
}

impl ConfigurationTree {
    /// The child addressed by one segment.
    pub fn descend(&self, key: &Key) -> (r: Option<&ConfigurationTree>)
        ensures
            r matches Some(c) ==> descend(self@, key@) == Some(c@),
            r is None ==> descend(self@, key@) is None,
    {
        match (self, key) {
            (ConfigurationTree::Mapping(es), Key::Field(name)) => lookup_entry(es, name),
            (ConfigurationTree::Sequence(ts), Key::Index(i)) => {
                proof {
                    lemma_items_view_index(ts@);
                }
                if *i < ts.len() {
                    Some(&ts[*i])
                } else {
                    None
                }
            },
            _ => None,
        }
    }

    /// The node reached by following every segment of `keys` in order.
    pub fn descend_many(&self, keys: &CompoundKey) -> (r: Option<&ConfigurationTree>)
        ensures
            r matches Some(c) ==> descend_many(self@, keys@) == Some(c@),
            r is None ==> descend_many(self@, keys@) is None,
    {
        let mut cur: &ConfigurationTree = self;
        let mut i: usize = 0;
        proof {
            assert(keys@.subrange(0, keys@.len() as int) =~= keys@);
        }
        while i < keys.keys.len()
            invariant
                i <= keys.keys@.len(),
                keys@.len() == keys.keys@.len(),
                descend_many(self@, keys@) == descend_many(cur@, keys@.subrange(i as int, keys@.len() as int)),
            decreases keys.keys@.len() - i,
        {
            let ghost rest = keys@.subrange(i as int, keys@.len() as int);
            assert(rest[0] == keys.keys@[i as int]@);
            assert(rest.subrange(1, rest.len() as int) =~= keys@.subrange(i + 1, keys@.len() as int));
            match cur.descend(&keys.keys[i]) {
                Some(c) => {
                    cur = c;
                },
                None => {
                    return None;
                },
            }
            i = i + 1;
        }
        Some(cur)
    }
}


pub open spec fn refs_view(ts: Seq<&ConfigurationTree>) -> Seq<TreeView> {
    ts.map_values(|t: &ConfigurationTree| t@)
}

/// Merges `trees` in order, later trees taking precedence; fails when there is none.
pub fn merge_trees(trees: &Vec<&ConfigurationTree>) -> (r: Result<ConfigurationTree, ConfigurationError>)
    ensures
        match merge_all(refs_view(trees@)) {
            Some(m) => r matches Ok(t) && t@ == m,
            None => r == Err::<ConfigurationTree, ConfigurationError>(ConfigurationError::NoRoots),
        },
{
    if trees.len() == 0 {
        return Err(ConfigurationError::NoRoots);
    }
    let ghost tv = refs_view(trees@);
    let mut acc = trees[0].deep_clone();
    assert(tv.subrange(0, 1).subrange(0, 0) =~= seq![]);
    assert(tv.subrange(0, 1)[0] == acc@);
    assert(merge_all(tv.subrange(0, 1).subrange(0, 0)) is None);
    let mut i: usize = 1;
    while i < trees.len()
        invariant
            1 <= i <= trees@.len(),
            tv == refs_view(trees@),
            merge_all(tv.subrange(0, i as int)) == Some(acc@),
        decreases trees@.len() - i,
    {
        assert(tv.subrange(0, i + 1).subrange(0, i as int) =~= tv.subrange(0, i as int));
        acc = acc.merge_with(trees[i]);
        i = i + 1;
    }
    assert(tv.subrange(0, i as int) =~= tv);
    Ok(acc)
}


proof fn lemma_lookup_concat(x: Seq<(Seq<char>, TreeView)>, y: Seq<(Seq<char>, TreeView)>, k: Seq<char>)
    ensures
        lookup(x + y, k) == if lookup(y, k) is Some {
            lookup(y, k)
        } else {
            lookup(x, k)
        },
    decreases y.len(),
{
    if y.len() == 0 {
        assert(x + y =~= x);
    } else {
        let y0 = y.subrange(0, y.len() - 1);
        lemma_lookup_concat(x, y0, k);
        assert((x + y).subrange(0, (x + y).len() - 1) =~= x + y0);
    }
}

proof fn lemma_lookup_merge_entries(a: Seq<(Seq<char>, TreeView)>, b: Seq<(Seq<char>, TreeView)>, k: Seq<char>)
    ensures
        lookup(merge_entries(a, b), k) == match (lookup(a, k), lookup(b, k)) {
            (Some(x), Some(y)) => Some(merge(x, y)),
            (Some(x), None) => Some(x),
            (None, _) => None,
        },
    decreases a.len(),
{
    if a.len() > 0 {
        let a0 = a.subrange(0, a.len() - 1);
        lemma_lookup_merge_entries(a0, b, k);
        let m = merge_entries(a, b);
        assert(m.subrange(0, m.len() - 1) =~= merge_entries(a0, b));
    }
}

proof fn lemma_lookup_new_entries(b: Seq<(Seq<char>, TreeView)>, a: Seq<(Seq<char>, TreeView)>, k: Seq<char>)
    ensures
        lookup(new_entries(b, a), k) == if lookup(a, k) is Some {
            None
        } else {
            lookup(b, k)
        },
    decreases b.len(),
{
    if b.len() > 0 {
        let b0 = b.subrange(0, b.len() - 1);
        lemma_lookup_new_entries(b0, a, k);
        let n = new_entries(b, a);
        if lookup(a, b[b.len() - 1].0) is None {
            assert(n.subrange(0, n.len() - 1) =~= new_entries(b0, a));
        }
    }
}

/// Merging two mappings, the later one taking precedence: a key that both
/// define holds the merge of the two subtrees, so a scalar of the later
/// mapping replaces what the earlier one held; a key that only one of them
/// defines keeps its subtree unchanged.
pub proof fn lemma_later_source_wins(a: Seq<(Seq<char>, TreeView)>, b: Seq<(Seq<char>, TreeView)>, k: Seq<char>)
    ensures
        merge(TreeView::Mapping(a), TreeView::Mapping(b)) matches TreeView::Mapping(m) && lookup(m, k) == match (
            lookup(a, k),
            lookup(b, k),
        ) {
            (Some(x), Some(y)) => Some(merge(x, y)),
            (Some(x), None) => Some(x),
            (None, y) => y,
        },
        lookup(b, k) matches Some(TreeView::Leaf(v)) ==> merge(TreeView::Mapping(a), TreeView::Mapping(b))
            == TreeView::Mapping(merge_entries(a, b) + new_entries(b, a))
            && lookup(merge_entries(a, b) + new_entries(b, a), k) == Some(TreeView::Leaf(v)),
{
    lemma_lookup_concat(merge_entries(a, b), new_entries(b, a), k);
    lemma_lookup_merge_entries(a, b, k);
    lemma_lookup_new_entries(b, a, k);
}

/// When the earlier mapping holds a mapping under `k` and the later one a
/// sequence, the merge holds the later sequence under `k`: a conflict of
/// shapes is settled by precedence, not reported.
pub proof fn lemma_shape_conflict_later_wins(
    a: Seq<(Seq<char>, TreeView)>,
    b: Seq<(Seq<char>, TreeView)>,
    k: Seq<char>,
    items: Seq<TreeView>,
)
    requires
        lookup(a, k) matches Some(TreeView::Mapping(_)),
        lookup(b, k) == Some(TreeView::Sequence(items)),
    ensures
        merge(TreeView::Mapping(a), TreeView::Mapping(b)) matches TreeView::Mapping(m) && lookup(m, k) == Some(
            TreeView::Sequence(items),
        ),
{
    lemma_later_source_wins(a, b, k);
}

proof fn lemma_lookup_absent(es: Seq<(Seq<char>, TreeView)>, k: Seq<char>)
    ensures
        lookup(es, k) is None <==> forall|i: int| 0 <= i < es.len() ==> #[trigger] es[i].0 != k,
        lookup(es, k) matches Some(v) ==> exists|i: int| 0 <= i < es.len() && #[trigger] es[i] == (k, v),
    decreases es.len(),
{
    if es.len() > 0 {
        let pre = es.subrange(0, es.len() - 1);
        lemma_lookup_absent(pre, k);
        assert forall|i: int| 0 <= i < pre.len() implies #[trigger] pre[i] == es[i] by {}
        if lookup(es, k) is None {
            assert forall|i: int| 0 <= i < es.len() implies #[trigger] es[i].0 != k by {
                if i < es.len() - 1 {
                    assert(pre[i] == es[i]);
                }
            }
        }
        if let Some(v) = lookup(pre, k) {
            if es[es.len() - 1].0 != k {
                let i = choose|i: int| 0 <= i < pre.len() && #[trigger] pre[i] == (k, v);
                assert(es[i] == (k, v));
            }
        }
    }
}

proof fn lemma_merge_entries_shape(a: Seq<(Seq<char>, TreeView)>, b: Seq<(Seq<char>, TreeView)>)
    ensures
        merge_entries(a, b).len() == a.len(),
        forall|i: int| 0 <= i < a.len() ==> (#[trigger] merge_entries(a, b)[i]).0 == a[i].0 && merge_entries(a, b)[i].1 == match lookup(b, a[i].0) {
            Some(v) => merge(a[i].1, v),
            None => a[i].1,
        },
    decreases a.len(),
{
    if a.len() > 0 {
        let pre = a.subrange(0, a.len() - 1);
        lemma_merge_entries_shape(pre, b);
        assert forall|i: int| 0 <= i < a.len() implies (#[trigger] merge_entries(a, b)[i]).0 == a[i].0 && merge_entries(a, b)[i].1 == match lookup(b, a[i].0) {
            Some(v) => merge(a[i].1, v),
            None => a[i].1,
        } by {
            if i < a.len() - 1 {
                assert(pre[i] == a[i]);
                assert(merge_entries(a, b)[i] == merge_entries(pre, b)[i]);
            }
        }
    }
}

proof fn lemma_new_entries_shape(b: Seq<(Seq<char>, TreeView)>, a: Seq<(Seq<char>, TreeView)>)
    requires
        keys_unique(b),
    ensures
        keys_unique(new_entries(b, a)),
        forall|i: int| 0 <= i < new_entries(b, a).len() ==> exists|j: int| 0 <= j < b.len() && #[trigger] new_entries(b, a)[i] == b[j],
        forall|i: int| 0 <= i < new_entries(b, a).len() ==> lookup(a, (#[trigger] new_entries(b, a)[i]).0) is None,
    decreases b.len(),
{
    if b.len() > 0 {
        let pre = b.subrange(0, b.len() - 1);
        assert(keys_unique(pre)) by {
            assert forall|i: int, j: int| 0 <= i < j < pre.len() implies pre[i].0 != pre[j].0 by {
                assert(pre[i] == b[i] && pre[j] == b[j]);
            }
        }
        lemma_new_entries_shape(pre, a);
        let n0 = new_entries(pre, a);
        let n = new_entries(b, a);
        let last = b[b.len() - 1];
        assert forall|i: int| 0 <= i < n0.len() implies exists|j: int| 0 <= j < b.len() - 1 && #[trigger] n0[i] == b[j] by {
            let j = choose|j: int| 0 <= j < pre.len() && #[trigger] n0[i] == pre[j];
            assert(pre[j] == b[j]);
        }
        if lookup(a, last.0) is None {
            assert(n == n0.push(last));
            assert forall|i: int, j: int| 0 <= i < j < n.len() implies n[i].0 != n[j].0 by {
                if j == n.len() - 1 {
                    let jj = choose|jj: int| 0 <= jj < b.len() - 1 && #[trigger] n0[i] == b[jj];
                    assert(n[i] == b[jj]);
                } else {
                    assert(n[i] == n0[i] && n[j] == n0[j]);
                }
            }
            assert forall|i: int| 0 <= i < n.len() implies exists|j: int| 0 <= j < b.len() && #[trigger] n[i] == b[j] by {
                if i < n.len() - 1 {
                    let jj = choose|jj: int| 0 <= jj < b.len() - 1 && #[trigger] n0[i] == b[jj];
                    assert(n[i] == b[jj]);
                } else {
                    assert(n[i] == b[b.len() - 1]);
                }
            }
            assert forall|i: int| 0 <= i < n.len() implies lookup(a, (#[trigger] n[i]).0) is None by {
                if i < n.len() - 1 {
                    assert(n[i] == n0[i]);
                }
            }
        } else {
            assert forall|i: int| 0 <= i < n.len() implies exists|j: int| 0 <= j < b.len() && #[trigger] n[i] == b[j] by {
                let jj = choose|jj: int| 0 <= jj < b.len() - 1 && #[trigger] n0[i] == b[jj];
            }
        }
    }
}

/// Merging keeps trees well formed: when neither tree has a repeated name in
/// any mapping, neither has their merge.
pub proof fn lemma_merge_well_formed(t: TreeView, u: TreeView)
    requires
        well_formed(t),
        well_formed(u),
    ensures
        well_formed(merge(t, u)),
    decreases t,
{
    if let (TreeView::Mapping(a), TreeView::Mapping(b)) = (t, u) {
        assert(t == TreeView::Mapping(a));
        assert(keys_unique(a));
        assert(forall|i: int| 0 <= i < a.len() ==> #[trigger] well_formed(a[i].1));
        assert(keys_unique(b) && forall|i: int| 0 <= i < b.len() ==> #[trigger] well_formed(b[i].1));
        let me = merge_entries(a, b);
        let ne = new_entries(b, a);
        let m = me + ne;
        lemma_merge_entries_shape(a, b);
        lemma_new_entries_shape(b, a);
        assert forall|i: int| 0 <= i < me.len() implies #[trigger] well_formed(me[i].1) by {
            lemma_lookup_absent(b, a[i].0);
            if let Some(v) = lookup(b, a[i].0) {
                let j = choose|j: int| 0 <= j < b.len() && #[trigger] b[j] == (a[i].0, v);
                assert(well_formed(b[j].1));
                assert(decreases_to!(t => a));
                assert(decreases_to!(a => a[i]));
                assert(decreases_to!(a[i] => a[i].1));
                lemma_merge_well_formed(a[i].1, v);
            }
        }
        assert forall|i: int| 0 <= i < ne.len() implies #[trigger] well_formed(ne[i].1) by {
            let j = choose|j: int| 0 <= j < b.len() && #[trigger] ne[i] == b[j];
            assert(well_formed(b[j].1));
        }
        assert forall|i: int| 0 <= i < m.len() implies #[trigger] well_formed(m[i].1) by {
            if i < me.len() {
                assert(m[i] == me[i]);
            } else {
                assert(m[i] == ne[i - me.len()]);
            }
        }
        assert forall|i: int, j: int| 0 <= i < j < m.len() implies m[i].0 != m[j].0 by {
            if j < me.len() {
                assert(m[i] == me[i] && m[j] == me[j]);
            } else if i >= me.len() {
                assert(m[i] == ne[i - me.len()] && m[j] == ne[j - me.len()]);
            } else {
                assert(m[i] == me[i] && m[j] == ne[j - me.len()]);
                lemma_lookup_absent(a, ne[j - me.len()].0);
            }
        }
        assert(keys_unique(m));
        assert(forall|i: int| 0 <= i < m.len() ==> well_formed(#[trigger] m[i].1));
        assert(well_formed(TreeView::Mapping(m)));
        assert(merge(t, u) == TreeView::Mapping(m));
    } else {
        assert(merge(t, u) == u);
    }
}

/// Merging any number of well-formed trees yields a well-formed tree.
pub proof fn lemma_merge_all_well_formed(ts: Seq<TreeView>)
    requires
        forall|i: int| 0 <= i < ts.len() ==> well_formed(#[trigger] ts[i]),
    ensures
        merge_all(ts) matches Some(m) ==> well_formed(m),
    decreases ts.len(),
{
    if ts.len() > 0 {
        let pre = ts.subrange(0, ts.len() - 1);
        assert forall|i: int| 0 <= i < pre.len() implies well_formed(#[trigger] pre[i]) by {
            assert(pre[i] == ts[i]);
        }
        lemma_merge_all_well_formed(pre);
        if let Some(m) = merge_all(pre) {
            lemma_merge_well_formed(m, ts[ts.len() - 1]);
        }
    }
}

proof fn lemma_merge_all_mapping(ts: Seq<TreeView>)
    requires
        ts.len() > 0,
        forall|i: int| 0 <= i < ts.len() ==> (#[trigger] ts[i]) is Mapping,
    ensures
        merge_all(ts) matches Some(m) && m is Mapping,
    decreases ts.len(),
{
    let pre = ts.subrange(0, ts.len() - 1);
    if pre.len() > 0 {
        assert forall|i: int| 0 <= i < pre.len() implies (#[trigger] pre[i]) is Mapping by {
            assert(pre[i] == ts[i]);
        }
        lemma_merge_all_mapping(pre);
    }
}

/// Over any number of mappings merged in order, a key holds the value of the
/// latest mapping that defines it, when that value is a scalar or a sequence:
/// the later definition replaces every earlier one.
pub proof fn lemma_latest_definition_wins(ts: Seq<TreeView>, k: Seq<char>, j: int, x: TreeView)
    requires
        0 <= j < ts.len(),
        forall|i: int| 0 <= i < ts.len() ==> (#[trigger] ts[i]) is Mapping,
        !(x is Mapping),
        lookup(ts[j]->Mapping_0, k) == Some(x),
        forall|i: int| j < i < ts.len() ==> lookup((#[trigger] ts[i])->Mapping_0, k) is None,
    ensures
        merge_all(ts) matches Some(TreeView::Mapping(m)) && lookup(m, k) == Some(x),
    decreases ts.len(),
{
    lemma_merge_all_mapping(ts);
    let last = ts.len() - 1;
    let pre = ts.subrange(0, last);
    let b = ts[last]->Mapping_0;
    if pre.len() == 0 {
        assert(merge_all(pre) is None);
    } else {
        assert forall|i: int| 0 <= i < pre.len() implies (#[trigger] pre[i]) is Mapping by {
            assert(pre[i] == ts[i]);
        }
        lemma_merge_all_mapping(pre);
        let a = merge_all(pre)->Some_0->Mapping_0;
        lemma_later_source_wins(a, b, k);
        if j < last {
            assert forall|i: int| j < i < pre.len() implies lookup((#[trigger] pre[i])->Mapping_0, k) is None by {
                assert(pre[i] == ts[i]);
            }
            assert(pre[j] == ts[j]);
            lemma_latest_definition_wins(pre, k, j, x);
        } else {
            if let Some(y) = lookup(a, k) {
                assert(merge(y, x) == x);
            }
        }
    }
}

/// Over any number of mappings merged in order, a key that exactly one of
/// them defines keeps that mapping's subtree unchanged, and a key that none
/// defines is absent: no key is lost and none is invented.
pub proof fn lemma_single_definition_survives(ts: Seq<TreeView>, k: Seq<char>)
    requires
        ts.len() > 0,
        forall|i: int| 0 <= i < ts.len() ==> (#[trigger] ts[i]) is Mapping,
        forall|i: int, j: int|
            0 <= i < ts.len() && 0 <= j < ts.len() && i != j && lookup((#[trigger] ts[i])->Mapping_0, k) is Some
                ==> lookup((#[trigger] ts[j])->Mapping_0, k) is None,
    ensures
        merge_all(ts) matches Some(TreeView::Mapping(m)) && (lookup(m, k) is None <==> forall|i: int|
            0 <= i < ts.len() ==> lookup((#[trigger] ts[i])->Mapping_0, k) is None),
        forall|i: int|
            0 <= i < ts.len() && lookup((#[trigger] ts[i])->Mapping_0, k) is Some ==> (merge_all(ts) matches Some(
                TreeView::Mapping(m),
            ) && lookup(m, k) == lookup(ts[i]->Mapping_0, k)),
    decreases ts.len(),
{
    lemma_merge_all_mapping(ts);
    let last = ts.len() - 1;
    let pre = ts.subrange(0, last);
    let b = ts[last]->Mapping_0;
    if pre.len() == 0 {
        assert(merge_all(pre) is None);
        assert(merge_all(ts) == Some(ts[0]));
    } else {
        assert forall|i: int| 0 <= i < pre.len() implies (#[trigger] pre[i]) is Mapping by {
            assert(pre[i] == ts[i]);
        }
        assert forall|i: int, j: int|
            0 <= i < pre.len() && 0 <= j < pre.len() && i != j && lookup((#[trigger] pre[i])->Mapping_0, k) is Some
            implies lookup((#[trigger] pre[j])->Mapping_0, k) is None by {
            assert(pre[i] == ts[i] && pre[j] == ts[j]);
        }
        lemma_merge_all_mapping(pre);
        lemma_single_definition_survives(pre, k);
        let a = merge_all(pre)->Some_0->Mapping_0;
        lemma_later_source_wins(a, b, k);
        let m = merge_entries(a, b) + new_entries(b, a);
        assert(merge_all(ts) == Some(TreeView::Mapping(m)));
        if lookup(b, k) is Some {
            assert forall|i: int| 0 <= i < pre.len() implies lookup((#[trigger] pre[i])->Mapping_0, k) is None by {
                assert(ts[i] == pre[i]);
                assert(lookup(ts[last]->Mapping_0, k) is Some);
            }
            assert(lookup(a, k) is None);
            assert(lookup(m, k) == lookup(b, k));
            assert forall|i: int|
                0 <= i < ts.len() && lookup((#[trigger] ts[i])->Mapping_0, k) is Some implies lookup(m, k) == lookup(
                ts[i]->Mapping_0,
                k,
            ) by {
                if i < last {
                    assert(ts[i] == pre[i]);
                }
            }
        } else {
            assert(lookup(m, k) == lookup(a, k));
            assert forall|i: int|
                0 <= i < ts.len() && lookup((#[trigger] ts[i])->Mapping_0, k) is Some implies lookup(m, k) == lookup(
                ts[i]->Mapping_0,
                k,
            ) by {
                assert(i < last);
                assert(ts[i] == pre[i]);
            }
            if lookup(m, k) is None {
                assert forall|i: int| 0 <= i < ts.len() implies lookup((#[trigger] ts[i])->Mapping_0, k) is None by {
                    if i < last {
                        assert(ts[i] == pre[i]);
                    }
                }
            } else {
                let i = choose|i: int| 0 <= i < pre.len() && lookup((#[trigger] pre[i])->Mapping_0, k) is Some;
                assert(ts[i] == pre[i]);
            }
        }
    }
}

/// Following the empty key yields the node itself.
pub proof fn lemma_descend_empty_is_identity(t: TreeView)
    ensures
        descend_many(t, Seq::<KeyView>::empty()) == Some(t),
{
}

} // verus!
