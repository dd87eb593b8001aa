//! Identifiers and the allocator that hands them out.

use vstd::prelude::*;

verus! {

/// Names one element of a circuit: an input, an output, a middle signal, a
/// gate or a connection. Identifiers are ordered by the number they wrap.
#[derive(Debug, Clone, Copy, PartialEq, Eq, Hash, PartialOrd, Ord, Structural)]
pub struct Id(usize);

impl View for Id {
    type V = nat;

    /// The number that the identifier wraps.
    closed spec fn view(&self) -> nat {
        self.0 as nat
    }
}

impl Id {
    /// The identifier with the number `n`.
    pub closed spec fn of(n: nat) -> Id {
        Id(n as usize)
    }

    /// The number that the identifier wraps.
    pub fn number(&self) -> (n: usize)
        ensures
            n as nat == self@,
    {
        self.0
    }

    /// Two identifiers with the same number are the same identifier.
    pub broadcast proof fn same_number(a: Id, b: Id)
        ensures
            (#[trigger] a@ == #[trigger] b@) ==> a == b,
    {
    }

    /// The identifier with the number `n` wraps `n`.
    pub broadcast proof fn of_number(n: nat)
        requires
            n <= usize::MAX,
        ensures
            (#[trigger] Id::of(n))@ == n,
    {
    }
}

/// A counter that issues identifiers in increasing order, starting at zero.
#[derive(Debug)]
pub struct IdGenerator {
    inner: usize,
}

impl View for IdGenerator {
    type V = nat;

    /// The number of the identifier that comes next.
    closed spec fn view(&self) -> nat {
        self.inner as nat
    }
}

impl Clone for IdGenerator {
    fn clone(&self) -> (copy: Self)
        ensures
            copy@ == self@,
    {
        Self { inner: self.inner }
    }
}

impl IdGenerator {
    /// The generator as `generate` leaves it.
    pub closed spec fn advanced(self) -> IdGenerator {
        IdGenerator { inner: (self.inner + 1) as usize }
    }

    /// The generator after `k` calls of `generate`.
    pub open spec fn after(self, k: nat) -> IdGenerator
        decreases k,
    {
        if k == 0 {
            self
        } else {
            self.after((k - 1) as nat).advanced()
        }
    }

    /// The identifier that the call number `k` of `generate` returns,
    /// counting the calls from zero.
    pub open spec fn issued(self, k: nat) -> Id {
        Id::of(self.after(k)@)
    }

    /// A generator that has issued no identifier yet.
    pub fn new() -> (generator: Self)
        ensures
            generator@ == 0,
    {
        Self { inner: 0 }
    }

    /// The number of identifiers issued so far, which is the number of the
    /// identifier that comes next.
    pub fn issued_count(&self) -> (count: usize)
        ensures
            count == self@,
    {
        self.inner
    }

    /// Returns the next identifier and moves the counter past it.
    pub fn generate(&mut self) -> (id: Id)
        requires
            old(self)@ < usize::MAX,
        ensures
            id == Id::of(old(self)@),
            id@ == old(self)@,
            *final(self) == old(self).advanced(),
            final(self)@ == old(self)@ + 1,
    {
        self.inner += 1;
        Id(self.inner - 1)
    }

    /// As long as the counter fits the machine word, `k` calls move it on by
    /// `k`.
    pub proof fn lemma_after(self, k: nat)
        requires
            self@ + k <= usize::MAX,
        ensures
            self.after(k)@ == self@ + k,
            self.issued(k)@ == self@ + k,
        decreases k,
    {
        if k > 0 {
            self.lemma_after((k - 1) as nat);
        }
    }

    /// The identifiers that one generator issues are strictly increasing,
    /// and so pairwise distinct: of two calls the later one returns the
    /// greater identifier.
    pub proof fn lemma_issued_increasing(self, i: nat, j: nat)
        requires
            i < j,
            self@ + j <= usize::MAX,
        ensures
            self.issued(i)@ < self.issued(j)@,
            self.issued(i) != self.issued(j),
    {
        self.lemma_after(i);
        self.lemma_after(j);
    }
}

} // verus!
