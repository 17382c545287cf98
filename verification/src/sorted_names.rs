//! Lists of names in ascending order, each name once.
use crate::text;
use crate::text::str_equal;
use vstd::prelude::*;
use vstd::string::*;
use vstd::utf8::*;

verus! {

/// The order of byte strings: at the first place where they differ the lower byte decides, and a
/// string that ends there comes first.
pub open spec fn bytes_less(a: Seq<u8>, b: Seq<u8>) -> bool {
    exists|k: int| #[trigger] parts_at(a, b, k)
}

/// Whether `a` and `b` agree before `k`, and `a` ends at `k` or is lower there.
pub open spec fn parts_at(a: Seq<u8>, b: Seq<u8>, k: int) -> bool {
    &&& 0 <= k <= a.len()
    &&& k < b.len()
    &&& forall|i: int| 0 <= i < k ==> #[trigger] a[i] == b[i]
    &&& k == a.len() || a[k] < b[k]
}

/// The order of texts: that of their UTF-8 bytes.
pub open spec fn name_less(a: Seq<char>, b: Seq<char>) -> bool {
    bytes_less(encode_utf8(a), encode_utf8(b))
}

/// Whether the names of a list are in ascending order, each name once.
pub open spec fn ascending(names: Seq<Seq<char>>) -> bool {
    forall|i: int, j: int|
        0 <= i < j < names.len() ==> name_less(#[trigger] names[i], #[trigger] names[j])
}

/// No text comes before itself.
pub proof fn lemma_not_less_than_itself(a: Seq<char>)
    ensures
        !name_less(a, a),
{
}

/// What comes before a text comes before all that the text comes before.
pub proof fn lemma_less_transitive(a: Seq<char>, b: Seq<char>, c: Seq<char>)
    requires
        name_less(a, b),
        name_less(b, c),
    ensures
        name_less(a, c),
{
    let (x, y, z) = (encode_utf8(a), encode_utf8(b), encode_utf8(c));
    let j = choose|k: int| #[trigger] parts_at(x, y, k);
    let k = choose|k: int| #[trigger] parts_at(y, z, k);
    let m = if j < k {
        j
    } else {
        k
    };
    assert forall|i: int| 0 <= i < m implies #[trigger] x[i] == z[i] by {
        assert(x[i] == y[i]);
        assert(y[i] == z[i]);
    }
    if j < k {
        assert(y[j] == z[j]);
    }
    if k < j {
        assert(x[k] == y[k]);
    }
    assert(parts_at(x, z, m));
}

/// Tells whether `a` comes before `b`. One of two different texts comes before the other.
pub fn str_less(a: &str, b: &str) -> (r: bool)
    ensures
        r == name_less(a@, b@),
        !r ==> a@ == b@ || name_less(b@, a@),
{
    let x = a.as_bytes();
    let y = b.as_bytes();
    proof {
        text::lemma_str_bytes(a);
        text::lemma_str_bytes(b);
    }
    let mut i: usize = 0;
    while i < x.len() && i < y.len() && x[i] == y[i]
        invariant
            0 <= i <= x@.len(),
            i <= y@.len(),
            forall|k: int| 0 <= k < i ==> #[trigger] x@[k] == y@[k],
        decreases x@.len() - i,
    {
        i += 1;
    }
    let r = i < y.len() && (i == x.len() || x[i] < y[i]);
    proof {
        if r {
            assert(parts_at(x@, y@, i as int));
        } else {
            assert forall|k: int| !#[trigger] parts_at(x@, y@, k) by {
                if parts_at(x@, y@, k) && i < k {
                    assert(x@[i as int] == y@[i as int]);
                }
            }
            if i == x@.len() && i == y@.len() {
                assert(x@ =~= y@);
            } else {
                assert(parts_at(y@, x@, i as int));
            }
        }
    }
    r
}

/// Adds a name to a list of names in ascending order, unless the list holds it.
pub fn insert_name(names: &mut Vec<String>, name: &str)
    requires
        ascending(text::texts(old(names)@)),
    ensures
        ascending(text::texts(final(names)@)),
        forall|s: Seq<char>| #[trigger]
            text::texts(final(names)@).contains(s) <==> s == name@ || text::texts(
                old(names)@,
            ).contains(s),
{
    let ghost before = text::texts(names@);
    let mut i: usize = 0;
    while i < names.len() && !str_less(name, names[i].as_str())
        invariant
            0 <= i <= names@.len(),
            names@ == old(names)@,
            before == text::texts(names@),
            ascending(before),
            forall|k: int| 0 <= k < i ==> name_less(#[trigger] before[k], name@),
        decreases names@.len() - i,
    {
        assert(before[i as int] == names@[i as int]@);
        if str_equal(names[i].as_str(), name) {
            return;
        }
        i += 1;
    }
    names.insert(i, name.to_owned());
    proof {
        let after = text::texts(names@);
        assert(after =~= before.insert(i as int, name@));
        assert forall|k: int| i <= k < before.len() implies name_less(
            name@,
            #[trigger] before[k],
        ) by {
            assert(name_less(name@, before[i as int]));
            if k > i {
                lemma_less_transitive(name@, before[i as int], before[k]);
            }
        }
        assert forall|j: int, k: int| 0 <= j < k < after.len() implies name_less(
            #[trigger] after[j],
            #[trigger] after[k],
        ) by {
            if j == i {
                assert(after[k] == before[k - 1]);
            } else if k == i {
                assert(after[j] == before[j]);
            }
        }
        assert forall|s: Seq<char>| #[trigger] after.contains(s) <==> s == name@
            || before.contains(s) by {
            assert(after[i as int] == name@);
            if before.contains(s) {
                let k = choose|k: int| 0 <= k < before.len() && before[k] == s;
                if k < i {
                    assert(after[k] == s);
                } else {
                    assert(after[k + 1] == s);
                }
            }
            if after.contains(s) && s != name@ {
                let k = choose|k: int| 0 <= k < after.len() && after[k] == s;
                if k < i {
                    assert(before[k] == s);
                } else {
                    assert(before[k - 1] == s);
                }
            }
        }
    }
}

/// A list in ascending order is fixed by the names that it holds.
pub proof fn law_ascending_list_is_unique(a: Seq<Seq<char>>, b: Seq<Seq<char>>)
    requires
        ascending(a),
        ascending(b),
        forall|s: Seq<char>| #[trigger] a.contains(s) <==> b.contains(s),
    ensures
        a == b,
    decreases a.len(),
{
    if a.len() == 0 {
        if b.len() > 0 {
            assert(b.contains(b[0]));
            assert(a.contains(b[0]));
        }
    } else {
        assert(a.contains(a[a.len() - 1]));
        let (x, y) = (a.last(), b.last());
        assert(b.contains(x));
        assert(b.contains(b[b.len() - 1]));
        assert(a.contains(y));
        if x != y {
            let j = choose|j: int| 0 <= j < b.len() && b[j] == x;
            let i = choose|i: int| 0 <= i < a.len() && a[i] == y;
            assert(name_less(b[j], b[b.len() - 1]));
            assert(name_less(a[i], a[a.len() - 1]));
            lemma_less_transitive(x, y, x);
            lemma_not_less_than_itself(x);
        }
        let (c, d) = (a.drop_last(), b.drop_last());
        assert forall|i: int, j: int| 0 <= i < j < c.len() implies name_less(
            #[trigger] c[i],
            #[trigger] c[j],
        ) by {
            assert(c[i] == a[i] && c[j] == a[j]);
        }
        assert forall|i: int, j: int| 0 <= i < j < d.len() implies name_less(
            #[trigger] d[i],
            #[trigger] d[j],
        ) by {
            assert(d[i] == b[i] && d[j] == b[j]);
        }
        assert forall|s: Seq<char>| #[trigger] c.contains(s) <==> d.contains(s) by {
            lemma_drop_last_contains(a, s);
            lemma_drop_last_contains(b, s);
        }
        law_ascending_list_is_unique(c, d);
        assert(a =~= c.push(x));
        assert(b =~= d.push(y));
    }
}

/// A list in ascending order holds, before its last name, all of its other names.
proof fn lemma_drop_last_contains(a: Seq<Seq<char>>, s: Seq<char>)
    requires
        ascending(a),
        a.len() > 0,
    ensures
        a.drop_last().contains(s) <==> a.contains(s) && s != a.last(),
{
    let c = a.drop_last();
    if c.contains(s) {
        let i = choose|i: int| 0 <= i < c.len() && c[i] == s;
        assert(a[i] == s);
        assert(name_less(a[i], a[a.len() - 1]));
        lemma_not_less_than_itself(s);
    }
    if a.contains(s) && s != a.last() {
        let i = choose|i: int| 0 <= i < a.len() && a[i] == s;
        assert(c[i] == s);
    }
}

} // verus!
