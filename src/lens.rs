use vstd::prelude::*;
use crate::configuration::{Configuration, ConfigurationDefinition};
use crate::error::ConfigurationError;
use crate::key::{parse_path, CompoundKey, KeyView};
use crate::tree::{descend_many, merge_all, merge_trees, refs_view, ConfigurationTree, TreeView};
use crate::value::{FromValue, ValueView};

verus! {

/// A read-only view that scopes into the trees of a configuration without
/// copying them. A root that a descent did not find is kept as `None`.
#[derive(Debug)]
pub struct Lens<'config> {
    roots: Vec<Option<&'config ConfigurationTree>>,
}

pub open spec fn option_view(r: Option<&ConfigurationTree>) -> Option<TreeView> {
    match r {
        Some(t) => Some(t@),
        None => None,
    }
}

/// Every root of `roots` scoped by `ks`.
pub open spec fn scope_roots(roots: Seq<Option<TreeView>>, ks: Seq<KeyView>) -> Seq<Option<TreeView>> {
    roots.map_values(|r: Option<TreeView>| match r {
        Some(t) => descend_many(t, ks),
        None => None,
    })
}

/// The roots that are present, in order.
pub open spec fn live_roots(roots: Seq<Option<TreeView>>) -> Seq<TreeView>
    decreases roots.len(),
{
    if roots.len() == 0 {
        seq![]
    } else {
        let rest = live_roots(roots.subrange(0, roots.len() - 1));
        match roots[roots.len() - 1] {
            Some(t) => rest.push(t),
            None => rest,
        }
    }
}

/// The node at `ks` in the latest root that has one.
pub open spec fn find_latest(roots: Seq<Option<TreeView>>, ks: Seq<KeyView>) -> Option<TreeView>
    decreases roots.len(),
{
    if roots.len() == 0 {
        None
    } else {
        match roots[roots.len() - 1] {
            Some(t) if descend_many(t, ks) is Some => descend_many(t, ks),
            _ => find_latest(roots.subrange(0, roots.len() - 1), ks),
        }
    }
}

/// The scalar at `ks` in the latest root whose node there is a scalar that
/// converts into `T`.
pub open spec fn find_converted<T: FromValue>(roots: Seq<Option<TreeView>>, ks: Seq<KeyView>) -> Option<ValueView>
    decreases roots.len(),
{
    if roots.len() == 0 {
        None
    } else {
        match roots[roots.len() - 1] {
            Some(t) if descend_many(t, ks) matches Some(TreeView::Leaf(v)) && T::convertible(v) => Some(
                descend_many(t, ks)->Some_0->Leaf_0,
            ),
            _ => find_converted::<T>(roots.subrange(0, roots.len() - 1), ks),
        }
    }
}

/// What a lookup of `ks` yields: the first value that converts into `T`,
/// later roots first; else a conversion error when some root has the path;
/// else nothing.
pub open spec fn lookup_outcome<T: FromValue>(
    roots: Seq<Option<TreeView>>,
    ks: Seq<KeyView>,
    r: Result<Option<T>, ConfigurationError>,
) -> bool {
    match find_converted::<T>(roots, ks) {
        Some(v) => r matches Ok(Some(x)) && T::converts_to(v, x),
        None => if find_latest(roots, ks) is Some {
            r == Err::<Option<T>, ConfigurationError>(ConfigurationError::TypeConversionError)
        } else {
            r == Ok::<Option<T>, ConfigurationError>(None)
        },
    }
}

/// Scoping keeps one entry per root: the subtree at `ks` where the root has
/// that path, and an absent root (no error) where it does not.
pub proof fn lemma_scope_drops_missing(roots: Seq<Option<TreeView>>, ks: Seq<KeyView>, i: int)
    requires
        0 <= i < roots.len(),
    ensures
        scope_roots(roots, ks).len() == roots.len(),
        (roots[i] is None || descend_many(roots[i]->0, ks) is None) ==> scope_roots(roots, ks)[i] is None,
        (roots[i] matches Some(t) && descend_many(t, ks) is Some) ==> scope_roots(roots, ks)[i] == descend_many(
            roots[i]->0,
            ks,
        ),
{
}

/// A lookup finds a node as soon as one root has the path, whatever the
/// other roots hold.
pub proof fn lemma_lookup_finds_any_resolving_root(roots: Seq<Option<TreeView>>, ks: Seq<KeyView>, j: int)
    requires
        0 <= j < roots.len(),
        roots[j] matches Some(t) && descend_many(t, ks) is Some,
    ensures
        find_latest(roots, ks) is Some,
    decreases roots.len(),
{
    let last = roots.len() - 1;
    if j < last {
        match roots[last] {
            Some(t) if descend_many(t, ks) is Some => {},
            _ => {
                let pre = roots.subrange(0, last);
                assert(pre[j] == roots[j]);
                lemma_lookup_finds_any_resolving_root(pre, ks, j);
            },
        }
    }
}

impl<'config> View for Lens<'config> {
    type V = Seq<Option<TreeView>>;

    closed spec fn view(&self) -> Seq<Option<TreeView>> {
        self.roots@.map_values(|r: Option<&'config ConfigurationTree>| option_view(r))
    }
}

impl<'config> Lens<'config> {
    /// A lens over the one tree of `def`.
    pub fn new_singular(def: &'config ConfigurationDefinition) -> (r: Lens<'config>)
        ensures
            r@ == seq![Some(def.root@)],
    {
        let mut roots: Vec<Option<&'config ConfigurationTree>> = Vec::new();
        roots.push(Some(&def.root));
        let r = Lens { roots };
        assert(r@ =~= seq![Some(def.root@)]);
        r
    }

    /// A lens over every tree of `config`, in order.
    pub fn new(config: &'config Configuration) -> (r: Lens<'config>)
        ensures
            r@ == config@.map_values(|t: TreeView| Some(t)),
    {
        let mut roots: Vec<Option<&'config ConfigurationTree>> = Vec::new();
        let mut i: usize = 0;
        while i < config.roots.len()
            invariant
                i <= config.roots@.len(),
                roots@.len() == i,
                forall|j: int| 0 <= j < i ==> #[trigger] option_view(roots@[j]) == Some(config@[j]),
            decreases config.roots@.len() - i,
        {
            roots.push(Some(&config.roots[i].root));
            i = i + 1;
        }
        let r = Lens { roots };
        assert(r@ =~= config@.map_values(|t: TreeView| Some(t)));
        r
    }

    /// Scopes every root into `keys`. A root without that path is dropped from
    /// the result, which is no error; only a malformed path is.
    pub fn try_lens(&self, keys: &str) -> (r: Result<Lens<'config>, ConfigurationError>)
        ensures
            match parse_path(keys@) {
                Some(ks) => r matches Ok(l) && l@ == scope_roots(self@, ks),
                None => r matches Err(e) && e is KeyParseError && e->KeyParseError_0@ == keys@,
            },
    {
        let keys = match CompoundKey::parse(keys) {
            Ok(k) => k,
            Err(e) => return Err(e),
        };
        let mut roots: Vec<Option<&'config ConfigurationTree>> = Vec::new();
        let mut i: usize = 0;
        while i < self.roots.len()
            invariant
                i <= self.roots@.len(),
                roots@.len() == i,
                forall|j: int| 0 <= j < i ==> #[trigger] option_view(roots@[j]) == match self@[j] {
                    Some(t) => descend_many(t, keys@),
                    None => None,
                },
            decreases self.roots@.len() - i,
        {
            let next = match self.roots[i] {
                Some(t) => t.descend_many(&keys),
                None => None,
            };
            roots.push(next);
            i = i + 1;
        }
        let r = Lens { roots };
        assert(r@ =~= scope_roots(self@, keys@));
        Ok(r)
    }

    fn get_result_internal<T: FromValue>(&self, keys: &CompoundKey) -> (r: Result<Option<T>, ConfigurationError>)
        ensures
            lookup_outcome::<T>(self@, keys@, r),
    {
        let mut i: usize = self.roots.len();
        proof {
            assert(self@.subrange(0, i as int) =~= self@);
        }
        let mut found = false;
        while i > 0
            invariant
                i <= self.roots@.len(),
                find_converted::<T>(self@, keys@) == find_converted::<T>(self@.subrange(0, i as int), keys@),
                (find_latest(self@, keys@) is Some) == (found || find_latest(self@.subrange(0, i as int), keys@) is Some),
            decreases i,
        {
            let ghost pre = self@.subrange(0, i as int);
            assert(pre.subrange(0, i - 1) =~= self@.subrange(0, i - 1));
            if let Some(t) = self.roots[i - 1] {
                if let Some(node) = t.descend_many(keys) {
                    found = true;
                    if let ConfigurationTree::Scalar(v) = node {
                        if let Some(x) = T::from_value(v) {
                            return Ok(Some(x));
                        }
                    }
                }
            }
            i = i - 1;
        }
        if found {
            Err(ConfigurationError::TypeConversionError)
        } else {
            Ok(None)
        }
    }

    /// Looks `keys` up: the first value that converts, later roots first.
    pub fn get_result<T: FromValue>(&self, keys: &str) -> (r: Result<Option<T>, ConfigurationError>)
        ensures
            match parse_path(keys@) {
                Some(ks) => lookup_outcome::<T>(self@, ks, r),
                None => r matches Err(e) && e is KeyParseError && e->KeyParseError_0@ == keys@,
            },
    {
        match CompoundKey::parse(keys) {
            Ok(k) => self.get_result_internal(&k),
            Err(e) => Err(e),
        }
    }

    /// Looks `keys` up as `get_result` does, with every error read as absence.
    pub fn get<T: FromValue>(&self, keys: &str) -> (r: Option<T>)
        ensures
            match parse_path(keys@) {
                Some(ks) => match find_converted::<T>(self@, ks) {
                    Some(v) => r matches Some(x) && T::converts_to(v, x),
                    None => r is None,
                },
                None => r is None,
            },
    {
        match self.get_result(keys) {
            Ok(v) => v,
            Err(_) => None,
        }
    }

    /// Merges the present roots into one new tree, later roots taking
    /// precedence; fails when no root is present.
    pub fn merge_cloned(self) -> (r: Result<ConfigurationTree, ConfigurationError>)
        ensures
            match merge_all(live_roots(self@)) {
                Some(m) => r matches Ok(t) && t@ == m,
                None => r == Err::<ConfigurationTree, ConfigurationError>(ConfigurationError::NoRoots),
            },
    {
        let mut refs: Vec<&ConfigurationTree> = Vec::new();
        let mut i: usize = 0;
        while i < self.roots.len()
            invariant
                i <= self.roots@.len(),
                refs_view(refs@) == live_roots(self@.subrange(0, i as int)),
            decreases self.roots@.len() - i,
        {
            let ghost before = refs@;
            let ghost pre = self@.subrange(0, i + 1);
            assert(pre.subrange(0, i as int) =~= self@.subrange(0, i as int));
            if let Some(t) = self.roots[i] {
                refs.push(t);
                assert(refs_view(refs@) =~= refs_view(before).push(t@));
            }
            i = i + 1;
        }
        assert(self@.subrange(0, i as int) =~= self@);
        merge_trees(&refs)
    }
}

impl<'config> From<&'config ConfigurationDefinition> for Lens<'config> {
    fn from(def: &'config ConfigurationDefinition) -> (r: Lens<'config>)
        ensures
            r@ == seq![Some(def.root@)],
    {
        Lens::new_singular(def)
    }
}

impl<'config> vstd::std_specs::convert::FromSpecImpl<&'config ConfigurationDefinition> for Lens<'config> {
    open spec fn obeys_from_spec() -> bool {
        false
    }

    open spec fn from_spec(def: &'config ConfigurationDefinition) -> Lens<'config> {
        arbitrary()
    }
}

impl<'config> From<&'config Configuration> for Lens<'config> {
    fn from(config: &'config Configuration) -> (r: Lens<'config>)
        ensures
            r@ == config@.map_values(|t: TreeView| Some(t)),
    {
        Lens::new(config)
    }
}

impl<'config> vstd::std_specs::convert::FromSpecImpl<&'config Configuration> for Lens<'config> {
    open spec fn obeys_from_spec() -> bool {
        false
    }

    open spec fn from_spec(config: &'config Configuration) -> Lens<'config> {
        arbitrary()
    }
}

} // verus!
