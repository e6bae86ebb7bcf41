use vstd::prelude::*;
use vstd::string::*;

verus! {

/// How one identifier stands to another in the order of enumeration.
#[derive(Clone, Copy, Debug, PartialEq, Eq, Structural)]
pub enum Place {
    Before,
    Same,
    After,
}

/// `k` is the first place at which `a` and `b` part, and `a` is the lesser
/// there: it has ended while `b` goes on, or it holds the smaller character.
pub open spec fn parts_below_at(a: Seq<char>, b: Seq<char>, k: int) -> bool {
    &&& 0 <= k <= a.len()
    &&& k < b.len()
    &&& forall|j: int| 0 <= j < k ==> a[j] == b[j]
    &&& (k < a.len() ==> (a[k] as u32) < (b[k] as u32))
}

/// The strict lexicographic order on identifiers, character by character.
pub open spec fn id_before(a: Seq<char>, b: Seq<char>) -> bool {
    exists|k: int| parts_below_at(a, b, k)
}

/// The order is transitive.
pub proof fn lemma_before_transitive(a: Seq<char>, b: Seq<char>, c: Seq<char>)
    requires
        id_before(a, b),
        id_before(b, c),
    ensures
        id_before(a, c),
{
    let k1 = choose|k: int| parts_below_at(a, b, k);
    let k2 = choose|k: int| parts_below_at(b, c, k);
    if k1 <= k2 {
        assert(parts_below_at(a, c, k1));
    } else {
        assert(parts_below_at(a, c, k2));
    }
}

/// No identifier comes before itself.
pub proof fn lemma_before_irreflexive(a: Seq<char>, b: Seq<char>)
    requires
        id_before(a, b),
    ensures
        a != b,
        !id_before(b, a),
{
    let k = choose|k: int| parts_below_at(a, b, k);
    if id_before(b, a) {
        lemma_before_transitive(a, b, a);
        let j = choose|j: int| parts_below_at(a, a, j);
        assert(false);
    }
}

/// Compares two identifiers in the order of enumeration.
pub fn compare_ids(a: &str, b: &str) -> (place: Place)
    ensures
        place == Place::Before <==> id_before(a@, b@),
        place == Place::Same <==> a@ == b@,
        place == Place::After <==> id_before(b@, a@),
{
    let n: usize = a.unicode_len();
    let m: usize = b.unicode_len();
    let mut i: usize = 0;
    let mut place = Place::Same;
    let mut parted = false;
    while i < n && i < m && !parted
        invariant
            n == a@.len(),
            m == b@.len(),
            i <= n,
            i <= m,
            !parted ==> forall|j: int| 0 <= j < i ==> a@[j] == b@[j],
            !parted ==> place == Place::Same,
            parted ==> place != Place::Same,
            parted && place == Place::Before ==> id_before(a@, b@),
            parted && place == Place::After ==> id_before(b@, a@),
        decreases n - i + if parted { 0int } else { 1int },
    {
        let x = a.get_char(i);
        let y = b.get_char(i);
        if x == y {
            i = i + 1;
        } else {
            parted = true;
            if (x as u32) < (y as u32) {
                place = Place::Before;
                assert(parts_below_at(a@, b@, i as int));
            } else {
                place = Place::After;
                assert(parts_below_at(b@, a@, i as int));
            }
        }
    }
    if !parted {
        if n < m {
            place = Place::Before;
            assert(parts_below_at(a@, b@, n as int));
        } else if m < n {
            place = Place::After;
            assert(parts_below_at(b@, a@, m as int));
        } else {
            assert(a@ =~= b@);
        }
    }
    proof {
        if id_before(a@, b@) {
            lemma_before_irreflexive(a@, b@);
        }
        if id_before(b@, a@) {
            lemma_before_irreflexive(b@, a@);
        }
    }
    place
}

} // verus!
