//! Assembly of the anchored least-squares system from recorded observations.
//! The coefficients stay symbolic (`Zero`, `One`, `NegRatio`), so the layout
//! of the system is exact whatever numeric type a caller materializes it into.

use vstd::prelude::*;

verus! {

/// One recorded comparison: entity `i` is `ratio` times better than entity `j`.
#[derive(Clone, Copy, PartialEq, Eq, Debug)]
pub struct Observation<V> {
    pub i: usize,
    pub j: usize,
    pub ratio: V,
}

/// The observation speaks of two distinct entities below `n`.
pub open spec fn obs_valid<V>(ob: Observation<V>, n: nat) -> bool {
    (ob.i as nat) < n && (ob.j as nat) < n && ob.i != ob.j
}

/// One coefficient of the assembled system: `One` stands for 1, `Zero` for 0,
/// and `NegRatio(v)` for the negation of the observed ratio `v`.
#[derive(Clone, Copy, PartialEq, Eq, Debug)]
pub enum Entry<V> {
    Zero,
    One,
    NegRatio(V),
}

/// An overdetermined linear system: `rows` of `cols` coefficients each, and a
/// right-hand side holding one where `true` and zero where `false`.
pub struct LinearSystem<V> {
    pub cols: usize,
    pub rows: Vec<Vec<Entry<V>>>,
    pub rhs: Vec<bool>,
}

/// The anchor row: 1 at the reference column, 0 elsewhere.
pub open spec fn spec_anchor_row<V>(row: Seq<Entry<V>>, n: nat, anchor: usize) -> bool {
    row.len() == n && forall|c: int|
        0 <= c < n ==> (#[trigger] row[c]) == (if c == anchor as int {
            Entry::<V>::One
        } else {
            Entry::<V>::Zero
        })
}

/// An observation row: 1 at the better entity's column, the negated ratio at
/// the other entity's column, 0 elsewhere.
pub open spec fn spec_obs_row<V>(row: Seq<Entry<V>>, n: nat, ob: Observation<V>) -> bool {
    row.len() == n && forall|c: int|
        0 <= c < n ==> (#[trigger] row[c]) == (if c == ob.i as int {
            Entry::<V>::One
        } else if c == ob.j as int {
            Entry::NegRatio(ob.ratio)
        } else {
            Entry::<V>::Zero
        })
}

/// Assembles the least-squares input from `observations` over `n` entities:
/// first the single anchor row fixing the reference entity `anchor` at one
/// (right-hand side one), then one row per observation in order (right-hand
/// side zero). The anchor row resolves the scale that ratios alone leave free.
pub fn build_system<V: Copy>(
    n: usize,
    anchor: usize,
    observations: &Vec<Observation<V>>,
) -> (sys: LinearSystem<V>)
    requires
        anchor < n,
    ensures
        sys.cols == n,
        sys.rows@.len() == observations@.len() + 1,
        sys.rhs@.len() == observations@.len() + 1,
        spec_anchor_row(sys.rows@[0]@, n as nat, anchor),
        sys.rhs@[0] == true,
        forall|j: int|
            1 <= j < sys.rows@.len() ==> spec_obs_row(
                (#[trigger] sys.rows@[j])@,
                n as nat,
                observations@[j - 1],
            ),
        forall|j: int| 1 <= j < sys.rhs@.len() ==> (#[trigger] sys.rhs@[j]) == false,
{
    let mut rows: Vec<Vec<Entry<V>>> = Vec::new();
    let mut rhs: Vec<bool> = Vec::new();
    let mut row0: Vec<Entry<V>> = Vec::new();
    let mut c: usize = 0;
    while c < n
        invariant
            c <= n,
            anchor < n,
            row0@.len() == c,
            forall|t: int|
                0 <= t < c ==> (#[trigger] row0@[t]) == (if t == anchor as int {
                    Entry::<V>::One
                } else {
                    Entry::<V>::Zero
                }),
        decreases n - c,
    {
        if c == anchor {
            row0.push(Entry::One);
        } else {
            row0.push(Entry::Zero);
        }
        c += 1;
    }
    rows.push(row0);
    rhs.push(true);
    let mut k: usize = 0;
    while k < observations.len()
        invariant
            k <= observations@.len(),
            anchor < n,
            rows@.len() == k + 1,
            rhs@.len() == k + 1,
            spec_anchor_row(rows@[0]@, n as nat, anchor),
            rhs@[0] == true,
            forall|j: int|
                1 <= j < rows@.len() ==> spec_obs_row(
                    (#[trigger] rows@[j])@,
                    n as nat,
                    observations@[j - 1],
                ),
            forall|j: int| 1 <= j < rhs@.len() ==> (#[trigger] rhs@[j]) == false,
        decreases observations@.len() - k,
    {
        let ob = observations[k];
        let mut row: Vec<Entry<V>> = Vec::new();
        let mut c2: usize = 0;
        while c2 < n
            invariant
                c2 <= n,
                row@.len() == c2,
                forall|t: int|
                    0 <= t < c2 ==> (#[trigger] row@[t]) == (if t == ob.i as int {
                        Entry::<V>::One
                    } else if t == ob.j as int {
                        Entry::NegRatio(ob.ratio)
                    } else {
                        Entry::<V>::Zero
                    }),
            decreases n - c2,
        {
            if c2 == ob.i {
                row.push(Entry::One);
            } else if c2 == ob.j {
                row.push(Entry::NegRatio(ob.ratio));
            } else {
                row.push(Entry::Zero);
            }
            c2 += 1;
        }
        let ghost rows0 = rows@;
        rows.push(row);
        rhs.push(false);
        proof {
            assert(spec_obs_row(rows@[k as int + 1]@, n as nat, observations@[k as int]));
            assert(rows@[0] == rows0[0]);
        }
        k += 1;
    }
    LinearSystem { cols: n, rows, rhs }
}

} // verus!
