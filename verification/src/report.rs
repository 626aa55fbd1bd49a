//! The order and the layout of the final report.

use vstd::prelude::*;
use vstd::string::StringSliceAdditionalSpecFns;
use crate::tally::HandCount;

verus! {

/// Dictionary order on byte strings, the order in which `str` values
/// compare: at the first place where the two differ the smaller byte decides,
/// and a string comes before each of its proper extensions.
pub open spec fn bytes_before(a: Seq<u8>, b: Seq<u8>) -> bool
    decreases a.len(),
{
    if b.len() == 0 {
        false
    } else if a.len() == 0 {
        true
    } else if a[0] != b[0] {
        a[0] < b[0]
    } else {
        bytes_before(a.drop_first(), b.drop_first())
    }
}

/// Of two different byte strings one comes before the other.
pub proof fn lemma_bytes_total(a: Seq<u8>, b: Seq<u8>)
    ensures
        a == b || bytes_before(a, b) || bytes_before(b, a),
        !(bytes_before(a, b) && bytes_before(b, a)),
        a == b ==> !bytes_before(a, b),
    decreases a.len(),
{
    if a.len() > 0 && b.len() > 0 && a[0] == b[0] {
        lemma_bytes_total(a.drop_first(), b.drop_first());
        if a.drop_first() == b.drop_first() {
            assert(a =~= seq![a[0]] + a.drop_first());
            assert(b =~= seq![b[0]] + b.drop_first());
        }
    } else if a.len() == 0 && b.len() == 0 {
        assert(a =~= b);
    }
}

/// Dictionary order is transitive.
pub proof fn lemma_bytes_transitive(a: Seq<u8>, b: Seq<u8>, c: Seq<u8>)
    requires
        bytes_before(a, b),
        bytes_before(b, c),
    ensures
        bytes_before(a, c),
    decreases a.len(),
{
    if a.len() > 0 && a[0] == b[0] && b[0] == c[0] {
        lemma_bytes_transitive(a.drop_first(), b.drop_first(), c.drop_first());
    }
}

/// Decides `bytes_before` on the bytes of two names.
fn name_before(a: &str, b: &str) -> (res: bool)
    ensures
        res == bytes_before(a.spec_bytes(), b.spec_bytes()),
{
    let x = a.as_bytes();
    let y = b.as_bytes();
    let mut i: usize = 0;
    proof {
        assert(x@.skip(0) =~= x@);
        assert(y@.skip(0) =~= y@);
    }
    while i < x.len() && i < y.len()
        invariant
            i <= x@.len(),
            i <= y@.len(),
            x@ == a.spec_bytes(),
            y@ == b.spec_bytes(),
            bytes_before(x@, y@) == bytes_before(x@.skip(i as int), y@.skip(i as int)),
        decreases x@.len() - i,
    {
        assert(x@.skip(i as int)[0] == x@[i as int] && y@.skip(i as int)[0] == y@[i as int]);
        if x[i] != y[i] {
            return x[i] < y[i];
        }
        proof {
            assert(x@.skip(i as int).drop_first() =~= x@.skip(i + 1));
            assert(y@.skip(i as int).drop_first() =~= y@.skip(i + 1));
        }
        i = i + 1;
    }
    i < y.len()
}

/// Whether entry `i` stands before entry `j` in the report: the higher count
/// first; of equal counts the name that is later in dictionary order first;
/// of equal counts and names the entry that is later in the tally first.
pub open spec fn reported_before(counts: Seq<HandCount>, i: int, j: int) -> bool {
    let x = counts[i];
    let y = counts[j];
    ||| x.count > y.count
    ||| x.count == y.count && bytes_before(y.name.spec_bytes(), x.name.spec_bytes())
    ||| x.count == y.count && x.name.spec_bytes() == y.name.spec_bytes() && i > j
}

/// Decides `reported_before`.
fn is_reported_before(counts: &[HandCount], i: usize, j: usize) -> (res: bool)
    requires
        i < counts@.len(),
        j < counts@.len(),
    ensures
        res == reported_before(counts@, i as int, j as int),
{
    let x = &counts[i];
    let y = &counts[j];
    proof {
        lemma_bytes_total(x.name.spec_bytes(), y.name.spec_bytes());
    }
    if x.count != y.count {
        x.count > y.count
    } else if name_before(y.name, x.name) {
        true
    } else if name_before(x.name, y.name) {
        false
    } else {
        i > j
    }
}

/// The report's order is a strict total order on the entries of a tally.
pub proof fn lemma_report_order(counts: Seq<HandCount>, i: int, j: int, k: int)
    ensures
        i == j || reported_before(counts, i, j) || reported_before(counts, j, i),
        !(reported_before(counts, i, j) && reported_before(counts, j, i)),
        reported_before(counts, i, j) && reported_before(counts, j, k) ==> reported_before(
            counts,
            i,
            k,
        ),
{
    let a = counts[i].name.spec_bytes();
    let b = counts[j].name.spec_bytes();
    let c = counts[k].name.spec_bytes();
    lemma_bytes_total(a, b);
    lemma_bytes_total(b, c);
    lemma_bytes_total(a, c);
    if bytes_before(c, b) && bytes_before(b, a) {
        lemma_bytes_transitive(c, b, a);
    }
}

/// Whether `order` lists every entry of a tally of `n` entries once, in the
/// order of the report.
pub open spec fn is_report_order(counts: Seq<HandCount>, n: int, order: Seq<usize>) -> bool {
    &&& order.len() == n
    &&& forall|k: int| 0 <= k < order.len() ==> 0 <= #[trigger] order[k] < n
    &&& forall|i: usize| i < n ==> #[trigger] order.contains(i)
    &&& forall|k1: int, k2: int|
        0 <= k1 < k2 < order.len() ==> reported_before(
            counts,
            #[trigger] order[k1] as int,
            #[trigger] order[k2] as int,
        )
}

/// The entries of a tally in the order of the report, as indices into the
/// tally.
pub fn report_order(counts: &[HandCount]) -> (order: Vec<usize>)
    ensures
        is_report_order(counts@, counts@.len() as int, order@),
{
    let mut order: Vec<usize> = Vec::new();
    let mut m: usize = 0;
    while m < counts.len()
        invariant
            m <= counts@.len(),
            is_report_order(counts@, m as int, order@),
        decreases counts@.len() - m,
    {
        let mut pos: usize = 0;
        while pos < order.len() && !is_reported_before(counts, m, order[pos])
            invariant
                pos <= order@.len(),
                m < counts@.len(),
                is_report_order(counts@, m as int, order@),
                forall|k: int|
                    0 <= k < pos ==> reported_before(
                        counts@,
                        #[trigger] order@[k] as int,
                        m as int,
                    ),
            decreases order@.len() - pos,
        {
            proof {
                lemma_report_order(counts@, m as int, order@[pos as int] as int, 0);
            }
            pos = pos + 1;
        }
        let ghost before = order@;
        order.insert(pos, m);
        proof {
            assert forall|k: int| pos < k < order@.len() implies reported_before(
                counts@,
                m as int,
                #[trigger] order@[k] as int,
            ) by {
                assert(order@[k] == before[k - 1]);
                if k - 1 > pos {
                    lemma_report_order(
                        counts@,
                        m as int,
                        before[pos as int] as int,
                        before[k - 1] as int,
                    );
                }
            }
            assert forall|i: usize| i < m + 1 implies #[trigger] order@.contains(i) by {
                if i < m {
                    assert(before.contains(i));
                    let k = choose|k: int| 0 <= k < before.len() && before[k] == i;
                    if k < pos {
                        assert(order@[k] == i);
                    } else {
                        assert(order@[k + 1] == i);
                    }
                } else {
                    assert(order@[pos as int] == m);
                }
            }
            assert forall|k1: int, k2: int| 0 <= k1 < k2 < order@.len() implies reported_before(
                counts@,
                #[trigger] order@[k1] as int,
                #[trigger] order@[k2] as int,
            ) by {
                if k1 < pos && k2 > pos {
                    assert(order@[k1] == before[k1]);
                    assert(order@[k2] == before[k2 - 1]);
                } else if k1 < pos && k2 < pos {
                    assert(order@[k1] == before[k1]);
                    assert(order@[k2] == before[k2]);
                } else if k1 > pos {
                    assert(order@[k1] == before[k1 - 1]);
                    assert(order@[k2] == before[k2 - 1]);
                }
            }
        }
        m = m + 1;
    }
    order
}

/// The width of the report's name column: the length in bytes of the longest
/// name, and 0 for an empty tally.
pub fn name_width(counts: &[HandCount]) -> (width: usize)
    ensures
        forall|i: int|
            0 <= i < counts@.len() ==> (#[trigger] counts@[i]).name.spec_bytes().len() <= width,
        counts@.len() == 0 ==> width == 0,
        counts@.len() > 0 ==> exists|i: int|
            0 <= i < counts@.len() && (#[trigger] counts@[i]).name.spec_bytes().len() == width,
{
    let mut width: usize = 0;
    let mut i: usize = 0;
    while i < counts.len()
        invariant
            i <= counts@.len(),
            forall|k: int| 0 <= k < i ==> (#[trigger] counts@[k]).name.spec_bytes().len() <= width,
            i == 0 ==> width == 0,
            i > 0 ==> exists|k: int|
                0 <= k < i && (#[trigger] counts@[k]).name.spec_bytes().len() == width,
        decreases counts@.len() - i,
    {
        let len = counts[i].name.as_bytes().len();
        if len > width {
            width = len;
        }
        i = i + 1;
    }
    width
}

} // verus!
