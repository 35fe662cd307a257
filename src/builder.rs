use vstd::prelude::*;
use crate::configuration::{absorb, Configuration};
use crate::error::ConfigurationError;
use crate::format::Transformer;
use crate::provider::{Provider, ProviderStruct};
use crate::source::Source;
use crate::tree::TreeView;

verus! {

/// The fragments `fs` joined in order.
pub open spec fn join_fragments(fs: Seq<Seq<TreeView>>) -> Seq<TreeView>
    decreases fs.len(),
{
    if fs.len() == 0 {
        seq![]
    } else {
        join_fragments(fs.subrange(0, fs.len() - 1)) + fs[fs.len() - 1]
    }
}

/// A registered synchronous provider.
pub struct BoxedProvider<'builder> {
    inner: Box<dyn Provider + 'builder>,
}

impl<'builder> BoxedProvider<'builder> {
    /// Boxes `provider` for registration.
    pub fn new<P: Provider + 'builder>(provider: P) -> BoxedProvider<'builder> {
        BoxedProvider { inner: Box::new(provider) }
    }

    /// Collects the provider's configuration fragment.
    pub fn collect(&self) -> Result<Configuration, ConfigurationError> {
        self.inner.collect()
    }
}

/// Holds configuration providers in the order in which they were added.
pub struct ConfigurationBuilder<'builder> {
    sources: Vec<BoxedProvider<'builder>>,
}

impl<'builder> ConfigurationBuilder<'builder> {
    /// The registered providers, in registration order.
    pub closed spec fn providers(&self) -> Seq<BoxedProvider<'builder>> {
        self.sources@
    }

    pub fn new() -> (r: ConfigurationBuilder<'builder>)
        ensures
            r.providers().len() == 0,
    {
        ConfigurationBuilder { sources: Vec::new() }
    }

    /// Registers `source`, read by `de`, after every provider added so far.
    pub fn add<S: Source + 'builder, D: Transformer + 'builder>(
        &mut self,
        source: S,
        de: D,
    ) -> (r: &mut ConfigurationBuilder<'builder>)
        ensures
            r.providers().len() == old(self).providers().len() + 1,
            r.providers().subrange(0, old(self).providers().len() as int) == old(self).providers(),
            *final(self) == *final(r),
    {
        let p = BoxedProvider::new(ProviderStruct::synchronous(source, de));
        self.sources.push(p);
        self
    }

    /// Registers `provider` after every provider added so far.
    pub fn add_provider<P: Provider + 'builder>(&mut self, provider: P) -> (r: &mut ConfigurationBuilder<'builder>)
        ensures
            r.providers().len() == old(self).providers().len() + 1,
            r.providers().subrange(0, old(self).providers().len() as int) == old(self).providers(),
            *final(self) == *final(r),
    {
        let p = BoxedProvider::new(provider);
        self.sources.push(p);
        self
    }

    /// Collects every provider in order and concatenates their trees; the
    /// first failure ends the build. Without providers the result is an
    /// empty configuration.
    pub fn build(&mut self) -> (r: Result<Configuration, ConfigurationError>)
        ensures
            final(self).providers() == old(self).providers(),
            old(self).providers().len() == 0 ==> (r matches Ok(c) && c@ == Seq::<TreeView>::empty()),
            r matches Ok(c) ==> exists|fs: Seq<Seq<TreeView>>|
                fs.len() == old(self).providers().len() && #[trigger] join_fragments(fs) == c@,
    {
        let ghost mut fs: Seq<Seq<TreeView>> = seq![];
        let mut result = Configuration::new();
        let mut i: usize = 0;
        while i < self.sources.len()
            invariant
                self.sources@ == old(self).sources@,
                i <= self.sources@.len(),
                i == 0 ==> result@ == Seq::<TreeView>::empty(),
                fs.len() == i,
                join_fragments(fs) == result@,
            decreases self.sources@.len() - i,
        {
            let fragment = self.sources[i].collect();
            let ghost piece = if fragment is Ok {
                fragment->Ok_0@
            } else {
                Seq::<TreeView>::empty()
            };
            result = match absorb(result, fragment) {
                Ok(c) => c,
                Err(e) => return Err(e),
            };
            proof {
                let nfs = fs.push(piece);
                assert(nfs.subrange(0, nfs.len() - 1) =~= fs);
                fs = nfs;
            }
            i = i + 1;
        }
        assert(join_fragments(fs) == result@);
        Ok(result)
    }

    /// Moves every provider registered so far into an asynchronous builder and
    /// registers the asynchronous `provider` after them.
    pub fn add_async<A>(self, provider: A) -> (r: AsyncConfigurationBuilder<'builder, A>)
        ensures
            r.sources().len() == self.providers().len() + 1,
            forall|i: int| 0 <= i < self.providers().len() ==> #[trigger] r.sources()[i] == SourceType::<'builder, A>::Synchronous(self.providers()[i]),
            r.sources()[self.providers().len() as int] == SourceType::<'builder, A>::Asynchronous(provider),
    {
        let mut async_builder = AsyncConfigurationBuilder::from_synchronous_builder(self);
        async_builder.add_async(provider);
        async_builder
    }
}

impl<'builder> Default for ConfigurationBuilder<'builder> {
    fn default() -> (r: ConfigurationBuilder<'builder>)
        ensures
            r.providers().len() == 0,
    {
        ConfigurationBuilder::new()
    }
}

/// A registered provider: one that collects at once, or one that has to be awaited.
pub enum SourceType<'builder, A> {
    Synchronous(BoxedProvider<'builder>),
    Asynchronous(A),
}

/// Holds synchronous and asynchronous providers in the order in which they
/// were added. Whoever awaits the asynchronous ones feeds each collected
/// fragment to [`absorb`] in this order.
pub struct AsyncConfigurationBuilder<'builder, A> {
    sources: Vec<SourceType<'builder, A>>,
}

impl<'builder, A> AsyncConfigurationBuilder<'builder, A> {
    /// The registered providers, in registration order.
    pub closed spec fn sources(&self) -> Seq<SourceType<'builder, A>> {
        self.sources@
    }

    pub fn new() -> (r: AsyncConfigurationBuilder<'builder, A>)
        ensures
            r.sources().len() == 0,
    {
        AsyncConfigurationBuilder { sources: Vec::new() }
    }

    /// Takes over the providers of `builder`, keeping their order.
    pub fn from_synchronous_builder(builder: ConfigurationBuilder<'builder>) -> (r: AsyncConfigurationBuilder<'builder, A>)
        ensures
            r.sources().len() == builder.providers().len(),
            forall|i: int| 0 <= i < builder.providers().len() ==> #[trigger] r.sources()[i] == SourceType::<'builder, A>::Synchronous(builder.providers()[i]),
    {
        let ghost orig = builder.sources@;
        let mut rest = builder.sources;
        let mut sources: Vec<SourceType<'builder, A>> = Vec::new();
        while rest.len() > 0
            invariant
                sources@.len() + rest@.len() == orig.len(),
                rest@ == orig.subrange(sources@.len() as int, orig.len() as int),
                forall|i: int| 0 <= i < sources@.len() ==> #[trigger] sources@[i] == SourceType::<'builder, A>::Synchronous(orig[i]),
            decreases rest@.len(),
        {
            let p = rest.remove(0);
            assert(p == orig[sources@.len() as int]);
            assert(rest@ =~= orig.subrange(sources@.len() as int + 1, orig.len() as int));
            sources.push(SourceType::Synchronous(p));
        }
        AsyncConfigurationBuilder { sources }
    }

    /// Registers `source`, read by `de`, after every provider added so far.
    pub fn add<S: Source + 'builder, D: Transformer + 'builder>(&mut self, source: S, de: D)
        ensures
            final(self).sources().len() == old(self).sources().len() + 1,
            final(self).sources().subrange(0, old(self).sources().len() as int) == old(self).sources(),
            final(self).sources().last() is Synchronous,
    {
        let p = BoxedProvider::new(ProviderStruct::synchronous(source, de));
        self.sources.push(SourceType::Synchronous(p));
        assert(self.sources@.subrange(0, self.sources@.len() - 1) =~= old(self).sources@);
    }

    /// Registers the asynchronous `provider` after every provider added so far.
    pub fn add_async(&mut self, provider: A)
        ensures
            final(self).sources() == old(self).sources().push(SourceType::<'builder, A>::Asynchronous(provider)),
    {
        self.sources.push(SourceType::Asynchronous(provider));
    }

    /// The registered providers, in registration order.
    pub fn into_sources(self) -> (r: Vec<SourceType<'builder, A>>)
        ensures
            r@ == self.sources(),
    {
        self.sources
    }
}

} // verus!
