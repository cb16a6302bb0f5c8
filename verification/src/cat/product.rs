use std::marker::PhantomData;
use vstd::prelude::*;

use crate::cat::domain::{Domain, FiniteDomain};
use crate::cat::has_count::{Count, HasCount, to_count};
use crate::cat::num::{Num, to_num};
use crate::cat::types::Mapping;

verus! {

/// The domain of pairs of an element of `Maj` and an element of `Min`.
pub struct Product<Maj, Min> {
    phantom_major: PhantomData<Maj>,
    phantom_minor: PhantomData<Min>,
}

impl<Maj, Min> Domain for Product<Maj, Min> {
    type Type = (Num<Maj>, Num<Min>);
}

impl<Maj, Min> FiniteDomain for Product<Maj, Min> {

}

/// Numbers pairs in row-major order: the pair `(maj, min)` gets number
/// `minor_count * maj + min`.
pub struct ProductNum<Maj, Min> {
    pub major_count: Count<Maj>,
    pub minor_count: Count<Min>,
}

/// The number of the pair `(maj, min)`.
pub open spec fn pair_num(minor_count: int, maj: int, min: int) -> int {
    minor_count * maj + min
}

impl<Maj, Min> Mapping<(Num<Maj>, Num<Min>)> for ProductNum<Maj, Min> {
    type Result = Num<Product<Maj, Min>>;

    open spec fn apply_requires(&self, elem: (Num<Maj>, Num<Min>)) -> bool {
        pair_num(self.minor_count@ as int, elem.0@ as int, elem.1@ as int) <= usize::MAX
    }

    open spec fn applies(&self, elem: (Num<Maj>, Num<Min>), result: Num<Product<Maj, Min>>) -> bool {
        result@ == pair_num(self.minor_count@ as int, elem.0@ as int, elem.1@ as int)
    }

    fn apply(&self, elem: (Num<Maj>, Num<Min>)) -> (r: Num<Product<Maj, Min>>) {
        let (maj_num, min_num) = elem;
        proof {
            assert(0 <= self.minor_count@ * maj_num@) by (nonlinear_arith);
        }
        let maj_component = self.minor_count.as_usize() * maj_num.as_usize();
        let min_component = min_num.as_usize();
        to_num(maj_component + min_component)
    }
}

impl<Maj, Min> Mapping<Num<Product<Maj, Min>>> for ProductNum<Maj, Min> {
    type Result = (Num<Maj>, Num<Min>);

    open spec fn apply_requires(&self, num: Num<Product<Maj, Min>>) -> bool {
        self.minor_count@ > 0
    }

    open spec fn applies(&self, num: Num<Product<Maj, Min>>, result: (Num<Maj>, Num<Min>)) -> bool {
        &&& result.0@ == num@ / self.minor_count@
        &&& result.1@ == num@ % self.minor_count@
    }

    fn apply(&self, num: Num<Product<Maj, Min>>) -> (r: (Num<Maj>, Num<Min>)) {
        let maj_num = num.as_usize() / self.minor_count.as_usize();
        let min_num = num.as_usize() % self.minor_count.as_usize();
        (to_num(maj_num), to_num(min_num))
    }
}

impl<Maj, Min> HasCount<Product<Maj, Min>> for ProductNum<Maj, Min> {
    open spec fn count_spec(&self) -> nat {
        (self.major_count@ * self.minor_count@) as nat
    }

    open spec fn count_requires(&self) -> bool {
        self.major_count@ * self.minor_count@ <= usize::MAX
    }

    fn count(&self) -> (r: Count<Product<Maj, Min>>) {
        let count = self.major_count.as_usize() * self.minor_count.as_usize();
        to_count(count)
    }
}

/// Numbering pairs is a bijection between the pairs `(maj, min)` with `maj < major_count`
/// and `min < minor_count` and the numbers below `major_count * minor_count`: the number
/// of a pair lies below the count, and splitting it gives the pair back; splitting a
/// number below the count gives a pair whose number is the number itself.
pub proof fn law_pair_num_bijection(major_count: int, minor_count: int, maj: int, min: int, num: int)
    requires
        0 <= maj < major_count,
        0 <= min < minor_count,
        0 <= num < major_count * minor_count,
    ensures
        0 <= pair_num(minor_count, maj, min) < major_count * minor_count,
        pair_num(minor_count, maj, min) / minor_count == maj,
        pair_num(minor_count, maj, min) % minor_count == min,
        0 <= num / minor_count < major_count,
        pair_num(minor_count, num / minor_count, num % minor_count) == num,
{
    assert(0 <= minor_count * maj + min < major_count * minor_count) by (nonlinear_arith)
        requires
            0 <= maj < major_count,
            0 <= min < minor_count,
    ;
    assert(minor_count * maj == maj * minor_count) by (nonlinear_arith);
    vstd::arithmetic::div_mod::lemma_fundamental_div_mod_converse(
        minor_count * maj + min,
        minor_count,
        maj,
        min,
    );
    vstd::arithmetic::div_mod::lemma_fundamental_div_mod(num, minor_count);
    assert(0 <= num / minor_count < major_count) by (nonlinear_arith)
        requires
            0 <= num < major_count * minor_count,
            minor_count > 0,
            num == minor_count * (num / minor_count) + num % minor_count,
            0 <= num % minor_count < minor_count,
    ;
}

} // verus!
