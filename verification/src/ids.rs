//! Order ids: random ten-digit numbers, never handed out twice.
use vstd::prelude::*;
use rand::rngs::ThreadRng;
use rand::Rng;
use std::collections::HashSet;

verus! {

broadcast use vstd::std_specs::hash::group_hash_axioms;

/// The smallest order id.
pub const FIRST_ID: u64 = 1;

/// Order ids stay below this bound (at most ten digits).
pub const ID_LIMIT: u64 = 9999999999;

/// An id that the registry may hand out.
pub open spec fn is_valid_id(id: u64) -> bool {
    FIRST_ID <= id < ID_LIMIT
}

#[verifier::external_type_specification]
#[verifier::external_body]
pub struct ExThreadRng(ThreadRng);

/// `rand::thread_rng`: a handle on the random generator of the current
/// thread.  Nothing is claimed of the handle; rand panics here only when the
/// operating system cannot seed the generator.
#[verifier::external_body]
fn thread_rng() -> ThreadRng {
    rand::thread_rng()
}

/// `rand::Rng::gen_range` on the half-open range `low..high` of `u64`:
/// claimed to return a value of that range (rand's documentation; it panics
/// only on an empty range, which `requires` rules out).  Which value comes
/// out is left open.
#[verifier::external_body]
fn gen_range_u64(rng: &mut ThreadRng, low: u64, high: u64) -> (r: u64)
    requires
        low < high,
    ensures
        low <= r < high,
{
    rng.gen_range(low..high)
}

/// The set of order ids handed out so far.
pub struct IdRegistry {
    issued: HashSet<u64>,
}

impl IdRegistry {
    /// The ids handed out so far.
    pub closed spec fn issued_view(self) -> Set<u64> {
        self.issued@
    }

    #[verifier::type_invariant]
    spec fn registry_inv(self) -> bool {
        &&& self.issued@.finite()
        &&& forall|x: u64| self.issued@.contains(x) ==> is_valid_id(x)
    }

    /// A registry that has handed out nothing.
    pub fn new() -> (r: Self)
        ensures
            r.issued_view() == Set::<u64>::empty(),
    {
        IdRegistry { issued: HashSet::new() }
    }

    /// Whether `id` was handed out.
    pub fn contains(&self, id: u64) -> (r: bool)
        ensures
            r == self.issued_view().contains(id),
    {
        self.issued.contains(&id)
    }

    /// How many ids were handed out; they form a finite set of valid ids.
    pub fn issued_count(&self) -> (n: usize)
        ensures
            n == self.issued_view().len(),
            self.issued_view().finite(),
            forall|x: u64| self.issued_view().contains(x) ==> is_valid_id(x),
    {
        proof {
            use_type_invariant(self);
        }
        self.issued.len()
    }

    fn register(&mut self, id: u64)
        requires
            is_valid_id(id),
        ensures
            final(self).issued_view() == old(self).issued_view().insert(id),
    {
        proof {
            use_type_invariant(&*self);
        }
        let mut issued = HashSet::new();
        std::mem::swap(&mut issued, &mut self.issued);
        issued.insert(id);
        self.issued = issued;
    }

    /// Hands out a new order id: random draws from `FIRST_ID..ID_LIMIT` are
    /// repeated until one comes up that was not handed out before.  Should
    /// `u64::MAX` draws in a row all hit ids already used, the smallest unused
    /// id is taken instead.  `None` exactly when every valid id is used up.
    pub fn generate_unique_id(&mut self) -> (r: Option<u64>)
        ensures
            r is None <==> forall|x: u64| is_valid_id(x) ==> old(self).issued_view().contains(x),
            r matches Some(id) ==> {
                &&& is_valid_id(id)
                &&& !old(self).issued_view().contains(id)
                &&& final(self).issued_view() == old(self).issued_view().insert(id)
            },
            r is None ==> final(self).issued_view() == old(self).issued_view(),
    {
        let mut rng = thread_rng();
        let mut attempts: u64 = 0;
        while attempts < u64::MAX
            invariant
                self.issued_view() == old(self).issued_view(),
            decreases u64::MAX - attempts,
        {
            let id = gen_range_u64(&mut rng, FIRST_ID, ID_LIMIT);
            if !self.contains(id) {
                self.register(id);
                return Some(id);
            }
            attempts = attempts + 1;
        }
        let mut candidate: u64 = FIRST_ID;
        while candidate < ID_LIMIT
            invariant
                FIRST_ID <= candidate <= ID_LIMIT,
                self.issued_view() == old(self).issued_view(),
                forall|x: u64| FIRST_ID <= x < candidate ==> self.issued_view().contains(x),
            decreases ID_LIMIT - candidate,
        {
            if !self.contains(candidate) {
                assert(is_valid_id(candidate) && !old(self).issued_view().contains(candidate));
                self.register(candidate);
                return Some(candidate);
            }
            candidate = candidate + 1;
        }
        None
    }
}

} // verus!
