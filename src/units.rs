use std::collections::HashMap;
use vstd::prelude::*;

verus! {

broadcast use vstd::std_specs::hash::group_hash_axioms;

/// Something that carries one integer state.
pub trait State {
    /// The state carried, as an integer.
    spec fn state_of(&self) -> int;

    fn get_state(&self) -> (r: i32)
        ensures
            r as int == self.state_of(),
    ;

    fn set_state(&mut self, state: i32)
        ensures
            final(self).state_of() == state as int,
    ;
}

impl State for i32 {
    open spec fn state_of(&self) -> int {
        *self as int
    }

    fn get_state(&self) -> (r: i32) {
        *self
    }

    fn set_state(&mut self, state: i32) {
        *self = state;
    }
}

/// The configuration that follows `s` in odometer order: unit `j` advances
/// (wrapping to zero at `m`) exactly when every unit below it is at `m - 1`.
pub open spec fn odometer_next(s: Seq<i32>, m: i32) -> Seq<i32> {
    Seq::new(
        s.len(),
        |j: int|
            if forall|i: int| 0 <= i < j ==> s[i] == m - 1 {
                if s[j] == m - 1 {
                    0i32
                } else {
                    (s[j] + 1) as i32
                }
            } else {
                s[j]
            },
    )
}

/// The configuration reached from `s` after `k` odometer steps.
pub open spec fn odometer_iter(s: Seq<i32>, m: i32, k: nat) -> Seq<i32>
    decreases k,
{
    if k == 0 {
        s
    } else {
        odometer_next(odometer_iter(s, m, (k - 1) as nat), m)
    }
}

/// How many times `k` occurs in `s`.
pub open spec fn occurrences(s: Seq<usize>, k: int) -> nat
    decreases s.len(),
{
    if s.len() == 0 {
        0
    } else {
        occurrences(s.drop_last(), k) + if s.last() as int == k {
            1nat
        } else {
            0nat
        }
    }
}

/// One move that strikes the units in `affected` turns `a` into `b`.
pub open spec fn moves_to(a: Seq<i32>, b: Seq<i32>, m: i32, affected: Seq<usize>) -> bool {
    &&& a.len() == b.len()
    &&& forall|k: int|
        0 <= k < a.len() ==> #[trigger] b[k] == if affected.contains(k as usize) {
            ((a[k] + 1) % (m as int)) as i32
        } else {
            a[k]
        }
}

/// The lowest move id below `k` whose units turn `a` into `b`, if any.
pub open spec fn first_move(
    a: Seq<i32>,
    b: Seq<i32>,
    m: i32,
    table: Map<usize, Vec<usize>>,
    k: nat,
) -> Option<usize>
    decreases k,
{
    if k == 0 {
        None
    } else {
        match first_move(a, b, m, table, (k - 1) as nat) {
            Some(h) => Some(h),
            None => if moves_to(a, b, m, table[(k - 1) as usize]@) {
                Some((k - 1) as usize)
            } else {
                None
            },
        }
    }
}

proof fn lemma_first_move_stays(
    a: Seq<i32>,
    b: Seq<i32>,
    m: i32,
    table: Map<usize, Vec<usize>>,
    k: nat,
    n: nat,
)
    requires
        k <= n,
        first_move(a, b, m, table, k) is Some,
    ensures
        first_move(a, b, m, table, n) == first_move(a, b, m, table, k),
    decreases n - k,
{
    if k < n {
        lemma_first_move_stays(a, b, m, table, k, (n - 1) as nat);
    }
}

/// A full configuration: one state per unit, and the modulus shared by all.
#[derive(Debug)]
pub struct Units {
    units: Vec<i32>,
    max_state: i32,
}

impl Units {
    /// The states of the units, lowest unit first.
    pub closed spec fn states(&self) -> Seq<i32> {
        self.units@
    }

    /// The number of states a unit can take.
    pub closed spec fn modulus(&self) -> i32 {
        self.max_state
    }

    /// The modulus is positive and every state lies in `[0, modulus)`.
    pub open spec fn wf(&self) -> bool {
        &&& self.modulus() >= 1
        &&& forall|i: int|
            0 <= i < self.states().len() ==> 0 <= #[trigger] self.states()[i] < self.modulus()
    }

    /// Same states and same modulus.
    pub open spec fn same(&self, o: &Units) -> bool {
        self.states() == o.states() && self.modulus() == o.modulus()
    }

    /// The all-zero configuration of `count` units.
    pub fn new(count: usize, max_state: i32) -> (r: Self)
        requires
            max_state >= 1,
        ensures
            r.wf(),
            r.states() == Seq::new(count as nat, |i: int| 0i32),
            r.modulus() == max_state,
    {
        let units = vec![0i32; count];
        let r = Units { units, max_state };
        assert(r.states() =~= Seq::new(count as nat, |i: int| 0i32));
        r
    }

    /// Wraps the given states.
    pub fn with_units(units: Vec<i32>, max_state: i32) -> (r: Self)
        requires
            max_state >= 1,
            forall|i: int| 0 <= i < units@.len() ==> 0 <= #[trigger] units@[i] < max_state,
        ensures
            r.wf(),
            r.states() == units@,
            r.modulus() == max_state,
    {
        Units { units, max_state }
    }

    /// Sets one unit's state.
    pub fn set_units(&mut self, index: usize, state: i32)
        requires
            old(self).wf(),
            index < old(self).states().len(),
            0 <= state < old(self).modulus(),
        ensures
            final(self).wf(),
            final(self).states() == old(self).states().update(index as int, state),
            final(self).modulus() == old(self).modulus(),
    {
        self.units.set(index, state);
    }

    /// The state of one unit.
    pub fn get_units(&self, index: usize) -> (r: &i32)
        requires
            index < self.states().len(),
        ensures
            *r == self.states()[index as int],
    {
        &self.units[index]
    }

    /// The state of one unit.
    pub fn get_state(&self, index: usize) -> (r: i32)
        requires
            index < self.states().len(),
        ensures
            r == self.states()[index as int],
    {
        self.units[index].get_state()
    }

    /// Sets one unit's state.
    pub fn set_state(&mut self, index: usize, state: i32)
        requires
            old(self).wf(),
            index < old(self).states().len(),
            0 <= state < old(self).modulus(),
        ensures
            final(self).wf(),
            final(self).states() == old(self).states().update(index as int, state),
            final(self).modulus() == old(self).modulus(),
    {
        self.units.set(index, state);
    }

    /// The number of states a unit can take.
    pub fn max_state(&self) -> (r: i32)
        ensures
            r == self.modulus(),
    {
        self.max_state
    }

    /// The number of units.
    pub fn len(&self) -> (r: usize)
        ensures
            r == self.states().len(),
    {
        self.units.len()
    }

    fn generate_next_units_numeric(this: Self) -> (r: Self)
        requires
            this.wf(),
            this.states().len() > 0,
        ensures
            r.wf(),
            r.modulus() == this.modulus(),
            r.states() == odometer_next(this.states(), this.modulus()),
    {
        let mut this = this;
        let ghost s = this.units@;
        let m = this.max_state;
        let count = this.units.len();
        let first = this.units[0] + 1;
        this.units.set(0, first);
        let mut index: usize = 0;
        while index < count
            invariant
                count == s.len(),
                this.units@.len() == count,
                this.max_state == m,
                m >= 1,
                forall|i: int| 0 <= i < count ==> 0 <= #[trigger] s[i] < m,
                0 <= index <= count,
                forall|j: int| 0 <= j < index ==> #[trigger] this.units@[j] == odometer_next(s, m)[j],
                index < count ==> this.units@[index as int] == if forall|i: int|
                    0 <= i < index ==> s[i] == m - 1 {
                    s[index as int] + 1
                } else {
                    s[index as int] as int
                },
                forall|j: int| index < j < count ==> #[trigger] this.units@[j] == s[j],
            decreases count - index,
        {
            if this.units[index] >= m {
                this.units.set(index, 0);
                if index + 1 < count {
                    let v = this.units[index + 1] + 1;
                    this.units.set(index + 1, v);
                }
            }
            index = index + 1;
        }
        assert(this.units@ =~= odometer_next(s, m));
        this
    }

    /// The configuration that follows this one in odometer order.
    pub fn next_units(&self) -> (r: Self)
        requires
            self.wf(),
            self.states().len() > 0,
        ensures
            r.wf(),
            r.modulus() == self.modulus(),
            r.states() == odometer_next(self.states(), self.modulus()),
    {
        let c = self.clone();
        Units::generate_next_units_numeric(c)
    }

    /// Strikes the units at `indexs`: each occurrence of an index advances
    /// that unit by one, modulo the modulus.
    pub fn attack(&mut self, indexs: &[usize])
        requires
            old(self).wf(),
            forall|k: int| 0 <= k < indexs@.len() ==> #[trigger] indexs@[k] < old(self).states().len(),
        ensures
            final(self).wf(),
            final(self).modulus() == old(self).modulus(),
            final(self).states().len() == old(self).states().len(),
            forall|k: int|
                0 <= k < old(self).states().len() ==> #[trigger] final(self).states()[k] == (
                (old(self).states()[k] + occurrences(indexs@, k)) % (old(
                self).modulus() as int)),
    {
        let ghost s = self.units@;
        let m = self.max_state;
        let mut i: usize = 0;
        proof {
            assert(indexs@.subrange(0, 0) =~= Seq::<usize>::empty());
            assert forall|k: int| 0 <= k < s.len() implies #[trigger] self.units@[k] == (s[k]
                + occurrences(indexs@.subrange(0, 0), k)) % (m as int) by {
                vstd::arithmetic::div_mod::lemma_small_mod(s[k] as nat, m as nat);
            }
        }
        while i < indexs.len()
            invariant
                0 <= i <= indexs@.len(),
                self.max_state == m,
                m >= 1,
                self.units@.len() == s.len(),
                forall|k: int| 0 <= k < indexs@.len() ==> #[trigger] indexs@[k] < s.len(),
                forall|k: int| 0 <= k < s.len() ==> 0 <= #[trigger] s[k] < m,
                forall|k: int|
                    0 <= k < s.len() ==> #[trigger] self.units@[k] == (s[k] + occurrences(
                        indexs@.subrange(0, i as int),
                        k,
                    )) % (m as int),
            decreases indexs@.len() - i,
        {
            let index = indexs[i];
            let cur = self.units[index];
            let v = (cur + 1) % m;
            self.units.set(index, v);
            proof {
                let pre = indexs@.subrange(0, i as int);
                let post = indexs@.subrange(0, i as int + 1);
                assert(post.drop_last() =~= pre);
                assert forall|k: int| 0 <= k < s.len() implies #[trigger] self.units@[k] == (s[k]
                    + occurrences(post, k)) % (m as int) by {
                    if k == index as int {
                        let c = s[k] + occurrences(pre, k);
                        vstd::arithmetic::div_mod::lemma_add_mod_noop(c, 1, m as int);
                        vstd::arithmetic::div_mod::lemma_mod_twice(c + 1, m as int);
                        if m == 1 {
                            vstd::arithmetic::div_mod::lemma_mod_self_0(1);
                        } else {
                            vstd::arithmetic::div_mod::lemma_small_mod(1, m as nat);
                        }
                    }
                }
            }
            i = i + 1;
        }
        assert(indexs@.subrange(0, indexs@.len() as int) =~= indexs@);
        proof {
            assert forall|k: int| 0 <= k < s.len() implies 0 <= #[trigger] self.units@[k] < m by {
                vstd::arithmetic::div_mod::lemma_mod_bound(
                    s[k] + occurrences(indexs@, k),
                    m as int,
                );
            }
        }
    }

    /// The lowest move id whose units, struck once, turn `self` into `other`.
    /// Every id below the number of units must have an entry in `index_map`.
    pub fn find_attack_index(&self, other: &Self, index_map: &HashMap<usize, Vec<usize>>) -> (r:
        Option<usize>)
        requires
            self.wf(),
            other.states().len() == self.states().len(),
            forall|h: usize| h < self.states().len() ==> #[trigger] index_map@.contains_key(h),
        ensures
            r == first_move(
                self.states(),
                other.states(),
                self.modulus(),
                index_map@,
                self.states().len(),
            ),
            r matches Some(h) ==> h < self.states().len() && moves_to(
                self.states(),
                other.states(),
                self.modulus(),
                index_map@[h]@,
            ),
    {
        let count = self.units.len();
        let m = self.max_state;
        let ghost a = self.units@;
        let ghost b = other.units@;
        let mut i: usize = 0;
        while i < count
            invariant
                count == a.len(),
                b.len() == a.len(),
                a == self.units@,
                b == other.units@,
                m == self.max_state,
                self.wf(),
                0 <= i <= count,
                forall|h: usize| h < count ==> #[trigger] index_map@.contains_key(h),
                first_move(a, b, m, index_map@, i as nat) is None,
            decreases count - i,
        {
            let indexs = index_map.get(&i).unwrap();
            let mut is_child = true;
            let mut index: usize = 0;
            while index < count
                invariant
                    count == a.len(),
                    b.len() == a.len(),
                    a == self.units@,
                    b == other.units@,
                    m == self.max_state,
                    self.wf(),
                    forall|k: int| 0 <= k < count ==> 0 <= #[trigger] a[k] < m,
                    0 <= index <= count,
                    is_child == forall|k: int|
                        0 <= k < index ==> #[trigger] b[k] == if indexs@.contains(k as usize) {
                            ((a[k] + 1) % (m as int)) as i32
                        } else {
                            a[k]
                        },
                decreases count - index,
            {
                proof {
                    assert(a[index as int] == self.states()[index as int]);
                }
                let hit = contains_index(indexs, index);
                if hit {
                    if (self.units[index] + 1) % m != other.units[index] {
                        is_child = false;
                    }
                } else if self.units[index] != other.units[index] {
                    is_child = false;
                }
                index = index + 1;
            }
            if is_child {
                proof {
                    assert(first_move(a, b, m, index_map@, (i + 1) as nat) == Some(i));
                    lemma_first_move_stays(a, b, m, index_map@, (i + 1) as nat, count as nat);
                }
                return Some(i);
            }
            assert(first_move(a, b, m, index_map@, (i + 1) as nat) is None);
            i = i + 1;
        }
        None
    }
}

/// Every move id below `count` has an entry in `index_map`.
pub fn table_covers(index_map: &HashMap<usize, Vec<usize>>, count: usize) -> (r: bool)
    ensures
        r == forall|h: usize| h < count ==> #[trigger] index_map@.contains_key(h),
{
    let mut h: usize = 0;
    while h < count
        invariant
            0 <= h <= count,
            forall|k: usize| k < h ==> #[trigger] index_map@.contains_key(k),
        decreases count - h,
    {
        if !index_map.contains_key(&h) {
            return false;
        }
        h = h + 1;
    }
    true
}

/// Every value lies in `[0, max_state)`.
pub fn states_in_range(values: &Vec<i32>, max_state: i32) -> (r: bool)
    ensures
        r == forall|i: int| 0 <= i < values@.len() ==> 0 <= #[trigger] values@[i] < max_state,
{
    let mut i: usize = 0;
    while i < values.len()
        invariant
            0 <= i <= values@.len(),
            forall|k: int| 0 <= k < i ==> 0 <= #[trigger] values@[k] < max_state,
        decreases values@.len() - i,
    {
        if values[i] < 0 || values[i] >= max_state {
            return false;
        }
        i = i + 1;
    }
    true
}

fn contains_index(v: &Vec<usize>, x: usize) -> (r: bool)
    ensures
        r == v@.contains(x),
{
    let mut i: usize = 0;
    while i < v.len()
        invariant
            0 <= i <= v@.len(),
            forall|k: int| 0 <= k < i ==> v@[k] != x,
        decreases v@.len() - i,
    {
        if v[i] == x {
            return true;
        }
        i = i + 1;
    }
    false
}

impl Clone for Units {
    fn clone(&self) -> (r: Self)
        ensures
            r.states() == self.states(),
            r.modulus() == self.modulus(),
    {
        Units { units: self.units.clone(), max_state: self.max_state }
    }
}

impl PartialEq for Units {
    fn eq(&self, o: &Units) -> (r: bool) {
        if self.max_state != o.max_state || self.units.len() != o.units.len() {
            return false;
        }
        let mut i: usize = 0;
        while i < self.units.len()
            invariant
                0 <= i <= self.units@.len(),
                self.units@.len() == o.units@.len(),
                forall|k: int| 0 <= k < i ==> self.units@[k] == o.units@[k],
            decreases self.units@.len() - i,
        {
            if self.units[i] != o.units[i] {
                return false;
            }
            i = i + 1;
        }
        assert(self.units@ =~= o.units@);
        true
    }
}

impl vstd::std_specs::cmp::PartialEqSpecImpl for Units {
    open spec fn obeys_eq_spec() -> bool {
        true
    }

    open spec fn eq_spec(&self, o: &Units) -> bool {
        self.same(o)
    }
}

impl Eq for Units {
}

} // verus!
