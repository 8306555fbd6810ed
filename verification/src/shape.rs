//! The network of point masses and springs that makes up one plate.
//!
//! Besides the two lists the shape keeps, for every mass, the springs that
//! are anchored at it. A pass over the masses can then gather what the springs
//! contribute to each mass without ever writing to a mass it does not own.

use vstd::prelude::*;
use crate::point_mass::PointMass;
use crate::spring::Spring;

verus! {

/// The indices of the springs anchored at `mass`, in the order of the spring
/// list. A spring appears once for each of its anchors that is `mass`, so a
/// spring from a mass to itself appears twice.
pub open spec fn incident(springs: Seq<Spring>, mass: int) -> Seq<usize>
    decreases springs.len(),
{
    if springs.len() == 0 {
        Seq::empty()
    } else {
        let earlier = incident(springs.drop_last(), mass);
        let index = (springs.len() - 1) as usize;
        let by_a = if springs.last().anchor_a == mass {
            earlier.push(index)
        } else {
            earlier
        };
        if springs.last().anchor_b == mass {
            by_a.push(index)
        } else {
            by_a
        }
    }
}

/// Every index that [`incident`] lists names a spring of the list, and that
/// spring is anchored at the mass.
pub proof fn lemma_incident_touches(springs: Seq<Spring>, mass: int)
    requires
        springs.len() <= usize::MAX,
    ensures
        forall|k: int|
            0 <= k < incident(springs, mass).len() ==> {
                let index = #[trigger] incident(springs, mass)[k];
                index < springs.len() && springs[index as int].touches(mass)
            },
    decreases springs.len(),
{
    if springs.len() > 0 {
        lemma_incident_touches(springs.drop_last(), mass);
        let earlier = incident(springs.drop_last(), mass);
        let all = incident(springs, mass);
        assert forall|k: int| 0 <= k < all.len() implies {
            let index = #[trigger] all[k];
            index < springs.len() && springs[index as int].touches(mass)
        } by {
            if k < earlier.len() {
                assert(all[k] == earlier[k]);
                assert(earlier[k] < springs.drop_last().len());
                assert(springs.drop_last()[earlier[k] as int] == springs[earlier[k] as int]);
            } else {
                assert(all[k] == (springs.len() - 1) as usize);
                assert(springs.last().touches(mass));
            }
        }
    }
}

/// A spring anchored at a mass is listed by [`incident`] for that mass.
pub proof fn lemma_incident_complete(springs: Seq<Spring>, mass: int, index: int)
    requires
        springs.len() <= usize::MAX,
        0 <= index < springs.len(),
        springs[index].touches(mass),
    ensures
        incident(springs, mass).contains(index as usize),
    decreases springs.len(),
{
    let all = incident(springs, mass);
    if index == springs.len() - 1 {
        assert(all[all.len() - 1] == index as usize);
    } else {
        lemma_incident_complete(springs.drop_last(), mass, index);
        let earlier = incident(springs.drop_last(), mass);
        let k = choose|k: int| 0 <= k < earlier.len() && earlier[k] == index as usize;
        assert(all[k] == index as usize);
    }
}

/// How often a spring counts for a mass: once for each of its anchors that
/// is the mass.
pub open spec fn anchors_at(spring: Spring, mass: int) -> nat {
    (if spring.anchor_a == mass {
        1nat
    } else {
        0nat
    }) + (if spring.anchor_b == mass {
        1nat
    } else {
        0nat
    })
}

/// [`incident`] lists every spring as often as it is anchored at the mass,
/// and nothing else. A pass that gathers, for each mass, what the listed
/// springs contribute therefore takes up every end of every spring once.
pub proof fn lemma_incident_counts(springs: Seq<Spring>, mass: int, index: usize)
    requires
        springs.len() <= usize::MAX,
    ensures
        incident(springs, mass).to_multiset().count(index) == if index < springs.len() {
            anchors_at(springs[index as int], mass)
        } else {
            0
        },
    decreases springs.len(),
{
    broadcast use vstd::seq_lib::group_to_multiset_ensures;

    if springs.len() == 0 {
        assert(incident(springs, mass).to_multiset().count(index) == 0);
    } else {
        let shorter = springs.drop_last();
        let earlier = incident(shorter, mass);
        let last = (springs.len() - 1) as usize;
        lemma_incident_counts(shorter, mass, index);
        let by_a = if springs.last().anchor_a == mass {
            earlier.push(last)
        } else {
            earlier
        };
        assert(by_a.to_multiset().count(index) == earlier.to_multiset().count(index) + (
        if springs.last().anchor_a == mass && index == last {
            1nat
        } else {
            0nat
        }));
        if index < last {
            assert(shorter[index as int] == springs[index as int]);
        }
    }
}

pub struct Shape {
    pub point_masses: Vec<PointMass>,
    pub springs: Vec<Spring>,
    /// For the mass at each index, the springs anchored at it. The methods of
    /// the shape keep this list in step with `springs`.
    pub spring_map: Vec<Vec<usize>>,
}

impl Shape {
    /// What the shape records as the springs of each mass.
    pub open spec fn spring_index(self) -> Seq<Seq<usize>> {
        Seq::new(self.spring_map@.len(), |i: int| self.spring_map@[i]@)
    }

    /// Both anchors of every spring name a mass of this shape.
    pub open spec fn anchored(self) -> bool {
        forall|k: int|
            0 <= k < self.springs@.len() ==> {
                &&& (#[trigger] self.springs@[k]).anchor_a < self.point_masses@.len()
                &&& self.springs@[k].anchor_b < self.point_masses@.len()
            }
    }

    /// The springs are anchored within the shape, and the record of springs
    /// by mass agrees with the spring list.
    pub open spec fn wf(self) -> bool {
        &&& self.anchored()
        &&& self.spring_index().len() == self.point_masses@.len()
        &&& forall|i: int|
            0 <= i < self.point_masses@.len() ==> #[trigger] self.spring_index()[i] == incident(
                self.springs@,
                i,
            )
    }

    pub fn new() -> (r: Shape)
        ensures
            r.wf(),
            r.point_masses@.len() == 0,
            r.springs@.len() == 0,
    {
        Shape { point_masses: Vec::new(), springs: Vec::new(), spring_map: Vec::new() }
    }

    pub fn add_point_mass(&mut self, point_mass: PointMass)
        requires
            old(self).wf(),
        ensures
            final(self).wf(),
            final(self).point_masses@ == old(self).point_masses@.push(point_mass),
            final(self).springs@ == old(self).springs@,
    {
        proof {
            lemma_unanchored_mass(self.springs@, self.point_masses@.len() as int);
        }
        self.spring_map.push(Vec::new());
        self.point_masses.push(point_mass);
        assert forall|i: int| 0 <= i < self.point_masses@.len() implies #[trigger] self.spring_index()[i]
            == incident(self.springs@, i) by {
            if i < old(self).point_masses@.len() {
                assert(self.spring_index()[i] == old(self).spring_index()[i]);
            }
        }
    }

    /// Adds a spring between two masses of the shape.
    pub fn add_spring(&mut self, spring: Spring)
        requires
            old(self).wf(),
            spring.anchor_a < old(self).point_masses@.len(),
            spring.anchor_b < old(self).point_masses@.len(),
        ensures
            final(self).wf(),
            final(self).point_masses@ == old(self).point_masses@,
            final(self).springs@ == old(self).springs@.push(spring),
    {
        let index = self.springs.len();
        self.spring_map[spring.anchor_a].push(index);
        self.spring_map[spring.anchor_b].push(index);
        self.springs.push(spring);
        assert(self.springs@.drop_last() == old(self).springs@);
        assert forall|i: int| 0 <= i < self.point_masses@.len() implies #[trigger] self.spring_index()[i]
            == incident(self.springs@, i) by {
            assert(old(self).spring_index()[i] == incident(old(self).springs@, i));
        }
    }

    /// Decides [`Shape::wf`]: the anchors are looked up, and the record of
    /// springs by mass is held against one built from the spring list.
    pub fn is_well_formed(&self) -> (r: bool)
        ensures
            r == self.wf(),
    {
        let count = self.point_masses.len();
        if self.spring_map.len() != count {
            return false;
        }
        let mut rebuilt = Shape::new();
        let mut i: usize = 0;
        while i < count
            invariant
                count == self.point_masses@.len(),
                i <= count,
                rebuilt.wf(),
                rebuilt.point_masses@ == self.point_masses@.take(i as int),
                rebuilt.springs@.len() == 0,
            decreases count - i,
        {
            rebuilt.add_point_mass(self.point_masses[i]);
            i = i + 1;
        }
        let mut k: usize = 0;
        while k < self.springs.len()
            invariant
                count == self.point_masses@.len(),
                k <= self.springs@.len(),
                rebuilt.wf(),
                rebuilt.point_masses@ == self.point_masses@,
                rebuilt.springs@ == self.springs@.take(k as int),
                forall|j: int|
                    0 <= j < k ==> (#[trigger] self.springs@[j]).anchor_a < count
                        && self.springs@[j].anchor_b < count,
            decreases self.springs@.len() - k,
        {
            let spring = self.springs[k];
            if spring.anchor_a >= count || spring.anchor_b >= count {
                return false;
            }
            rebuilt.add_spring(spring);
            k = k + 1;
        }
        let mut mass: usize = 0;
        while mass < count
            invariant
                count == self.point_masses@.len(),
                count == self.spring_map@.len(),
                mass <= count,
                self.anchored(),
                rebuilt.wf(),
                rebuilt.point_masses@ == self.point_masses@,
                rebuilt.springs@ == self.springs@,
                forall|j: int|
                    0 <= j < mass ==> #[trigger] self.spring_index()[j] == incident(
                        self.springs@,
                        j,
                    ),
            decreases count - mass,
        {
            assert(rebuilt.spring_index()[mass as int] == incident(self.springs@, mass as int));
            if !same_indices(&self.spring_map[mass], &rebuilt.spring_map[mass]) {
                assert(self.spring_index()[mass as int] != incident(self.springs@, mass as int));
                return false;
            }
            mass = mass + 1;
        }
        true
    }

    /// The springs anchored at the mass with index `mass`.
    pub fn springs_of(&self, mass: usize) -> (r: &Vec<usize>)
        requires
            self.wf(),
            mass < self.point_masses@.len(),
        ensures
            r@ == incident(self.springs@, mass as int),
    {
        assert(self.spring_index()[mass as int] == incident(self.springs@, mass as int));
        &self.spring_map[mass]
    }

    /// Every mass together with the springs anchored at it.
    pub fn iter_point_masses_with_springs(&self) -> (r: Vec<(PointMass, Vec<Spring>)>)
        requires
            self.wf(),
        ensures
            r@.len() == self.point_masses@.len(),
            forall|i: int|
                0 <= i < r@.len() ==> {
                    &&& (#[trigger] r@[i]).0 == self.point_masses@[i]
                    &&& r@[i].1@ == incident(self.springs@, i).map_values(
                        |index: usize| self.springs@[index as int],
                    )
                },
    {
        let mut result: Vec<(PointMass, Vec<Spring>)> = Vec::new();
        let mut i: usize = 0;
        while i < self.point_masses.len()
            invariant
                self.wf(),
                i <= self.point_masses@.len(),
                result@.len() == i,
                forall|j: int|
                    0 <= j < i ==> {
                        &&& (#[trigger] result@[j]).0 == self.point_masses@[j]
                        &&& result@[j].1@ == incident(self.springs@, j).map_values(
                            |index: usize| self.springs@[index as int],
                        )
                    },
            decreases self.point_masses@.len() - i,
        {
            let indices = self.springs_of(i);
            proof {
                assert(self.springs.len() <= usize::MAX);
                lemma_incident_touches(self.springs@, i as int);
            }
            let mut attached: Vec<Spring> = Vec::new();
            let mut k: usize = 0;
            while k < indices.len()
                invariant
                    k <= indices@.len(),
                    indices@ == incident(self.springs@, i as int),
                    forall|n: int|
                        0 <= n < indices@.len() ==> (#[trigger] indices@[n]) < self.springs@.len(),
                    attached@ == indices@.take(k as int).map_values(
                        |index: usize| self.springs@[index as int],
                    ),
                decreases indices@.len() - k,
            {
                attached.push(self.springs[indices[k]]);
                k = k + 1;
            }
            result.push((self.point_masses[i], attached));
            i = i + 1;
        }
        result
    }
}

/// Whether two lists of indices are the same list.
fn same_indices(a: &Vec<usize>, b: &Vec<usize>) -> (r: bool)
    ensures
        r == (a@ == b@),
{
    if a.len() != b.len() {
        return false;
    }
    let mut i: usize = 0;
    while i < a.len()
        invariant
            a@.len() == b@.len(),
            i <= a@.len(),
            forall|j: int| 0 <= j < i ==> a@[j] == b@[j],
        decreases a@.len() - i,
    {
        if a[i] != b[i] {
            return false;
        }
        i = i + 1;
    }
    assert(a@ =~= b@);
    true
}

/// No spring is anchored at an index beyond the masses that the springs name.
proof fn lemma_unanchored_mass(springs: Seq<Spring>, mass: int)
    requires
        forall|k: int|
            0 <= k < springs.len() ==> (#[trigger] springs[k]).anchor_a < mass && springs[k].anchor_b
                < mass,
    ensures
        incident(springs, mass) == Seq::<usize>::empty(),
    decreases springs.len(),
{
    if springs.len() > 0 {
        lemma_unanchored_mass(springs.drop_last(), mass);
    }
}

} // verus!
