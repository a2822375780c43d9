//! The order of paths, which goes component by component, and sets of paths kept in that order.

use crate::bytes::{
    bytes_equal, bytes_less, comes_before, lemma_bytes_less_total, lemma_bytes_less_transitive,
};
use crate::path::{byte_strings, components, FilePath, DOT, SLASH};
use vstd::prelude::*;

verus! {

/// The place of a kind of component: the root comes first, then `.`, then `..`, then all names.
pub open spec fn component_rank(component: Seq<u8>) -> int {
    if component == seq![SLASH] {
        0
    } else if component == seq![DOT] {
        1
    } else if component == seq![DOT, DOT] {
        2
    } else {
        3
    }
}

/// Whether a component comes before another one.
pub open spec fn component_less(a: Seq<u8>, b: Seq<u8>) -> bool {
    component_rank(a) < component_rank(b) || (component_rank(a) == component_rank(b) && bytes_less(
        a,
        b,
    ))
}

/// Whether a list of components comes before another one: the first difference decides, and what
/// leads to something comes before it.
pub open spec fn components_less(a: Seq<Seq<u8>>, b: Seq<Seq<u8>>) -> bool
    decreases a.len(),
{
    if b.len() == 0 {
        false
    } else if a.len() == 0 {
        true
    } else if a[0] != b[0] {
        component_less(a[0], b[0])
    } else {
        components_less(a.drop_first(), b.drop_first())
    }
}

/// Whether a path comes before another one.
pub open spec fn path_less(a: Seq<u8>, b: Seq<u8>) -> bool {
    components_less(components(a), components(b))
}

/// Whether two paths have the same components.
pub open spec fn same_path(a: Seq<u8>, b: Seq<u8>) -> bool {
    components(a) == components(b)
}

proof fn lemma_component_less_total(a: Seq<u8>, b: Seq<u8>)
    ensures
        !(component_less(a, b) && component_less(b, a)),
        a == b ==> !component_less(a, b),
        a == b || component_less(a, b) || component_less(b, a),
{
    lemma_bytes_less_total(a, b);
}

proof fn lemma_component_less_transitive(a: Seq<u8>, b: Seq<u8>, c: Seq<u8>)
    requires
        component_less(a, b),
        component_less(b, c),
    ensures
        component_less(a, c),
{
    if component_rank(a) == component_rank(b) && component_rank(b) == component_rank(c) {
        lemma_bytes_less_transitive(a, b, c);
    }
}

proof fn lemma_components_less_total(a: Seq<Seq<u8>>, b: Seq<Seq<u8>>)
    ensures
        !(components_less(a, b) && components_less(b, a)),
        a == b ==> !components_less(a, b),
        a == b || components_less(a, b) || components_less(b, a),
    decreases a.len(),
{
    if a.len() > 0 && b.len() > 0 {
        if a[0] == b[0] {
            lemma_components_less_total(a.drop_first(), b.drop_first());
            if a.drop_first() == b.drop_first() {
                assert(a =~= seq![a[0]] + a.drop_first());
                assert(b =~= seq![b[0]] + b.drop_first());
            }
        } else {
            lemma_component_less_total(a[0], b[0]);
        }
    } else if a.len() == 0 && b.len() == 0 {
        assert(a =~= b);
    }
}

proof fn lemma_components_less_transitive(a: Seq<Seq<u8>>, b: Seq<Seq<u8>>, c: Seq<Seq<u8>>)
    requires
        components_less(a, b),
        components_less(b, c),
    ensures
        components_less(a, c),
    decreases a.len(),
{
    if a.len() > 0 {
        if a[0] == b[0] && b[0] == c[0] {
            lemma_components_less_transitive(a.drop_first(), b.drop_first(), c.drop_first());
        } else if a[0] != b[0] && b[0] != c[0] {
            lemma_component_less_transitive(a[0], b[0], c[0]);
            lemma_component_less_total(a[0], c[0]);
        }
    }
}

/// Of two paths exactly one of three things holds: they have the same components, the first comes
/// first, or the second does.
pub proof fn lemma_path_order_total(a: Seq<u8>, b: Seq<u8>)
    ensures
        !(path_less(a, b) && path_less(b, a)),
        same_path(a, b) ==> !path_less(a, b) && !path_less(b, a),
        same_path(a, b) || path_less(a, b) || path_less(b, a),
{
    lemma_components_less_total(components(a), components(b));
}

/// The order of paths is transitive.
pub proof fn lemma_path_order_transitive(a: Seq<u8>, b: Seq<u8>, c: Seq<u8>)
    requires
        path_less(a, b),
        path_less(b, c),
    ensures
        path_less(a, c),
{
    lemma_components_less_transitive(components(a), components(b), components(c));
}

/// The place of a kind of component, as a number.
fn rank_of(component: &Vec<u8>) -> (rank: u8)
    ensures
        rank as int == component_rank(component@),
{
    if component.len() == 1 && component[0] == SLASH {
        assert(component@ =~= seq![SLASH]);
        0
    } else if component.len() == 1 && component[0] == DOT {
        assert(component@ =~= seq![DOT]);
        1
    } else if component.len() == 2 && component[0] == DOT && component[1] == DOT {
        assert(component@ =~= seq![DOT, DOT]);
        2
    } else {
        3
    }
}

impl FilePath {
    /// Whether this path comes before another one.
    pub fn precedes(&self, other: &FilePath) -> (before: bool)
        ensures
            before == path_less(self@, other@),
    {
        let a = self.components();
        let b = other.components();
        let ghost x = byte_strings(a@);
        let ghost y = byte_strings(b@);
        let mut i: usize = 0;
        assert(x.skip(0) =~= x);
        assert(y.skip(0) =~= y);
        while i < a.len() && i < b.len()
            invariant
                x == byte_strings(a@),
                y == byte_strings(b@),
                x == components(self@),
                y == components(other@),
                i <= a@.len(),
                i <= b@.len(),
                components_less(x, y) == components_less(x.skip(i as int), y.skip(i as int)),
            decreases a@.len() - i,
        {
            assert(x.skip(i as int)[0] == a@[i as int]@);
            assert(y.skip(i as int)[0] == b@[i as int]@);
            if !bytes_equal(a[i].as_slice(), b[i].as_slice()) {
                let p: u8 = rank_of(&a[i]);
                let q: u8 = rank_of(&b[i]);
                return p < q || (p == q && comes_before(a[i].as_slice(), b[i].as_slice()));
            }
            assert(x.skip(i as int).drop_first() =~= x.skip(i + 1));
            assert(y.skip(i as int).drop_first() =~= y.skip(i + 1));
            i = i + 1;
        }
        i < b.len()
    }
}

/// The paths of a vector, as bytes.
pub open spec fn path_bytes(paths: Seq<FilePath>) -> Seq<Seq<u8>> {
    paths.map_values(|path: FilePath| path@)
}

/// Whether paths stand in order, none of them twice.
pub open spec fn in_order(paths: Seq<Seq<u8>>) -> bool {
    forall|i: int, j: int|
        0 <= i < j < paths.len() ==> path_less(#[trigger] paths[i], #[trigger] paths[j])
}

/// How many paths at the start come before the given one.
pub open spec fn place_of(paths: Seq<Seq<u8>>, path: Seq<u8>) -> nat
    decreases paths.len(),
{
    if paths.len() == 0 || !path_less(paths[0], path) {
        0
    } else {
        1 + place_of(paths.drop_first(), path)
    }
}

/// The paths with one more, at its place. Where a path with the same components is there already,
/// that one stays and nothing is added.
pub open spec fn with_path(paths: Seq<Seq<u8>>, path: Seq<u8>) -> Seq<Seq<u8>> {
    let place = place_of(paths, path) as int;
    if place < paths.len() && same_path(paths[place], path) {
        paths
    } else {
        paths.insert(place, path)
    }
}

proof fn lemma_place(paths: Seq<Seq<u8>>, path: Seq<u8>, place: int)
    requires
        0 <= place <= paths.len(),
        forall|i: int| 0 <= i < place ==> path_less(#[trigger] paths[i], path),
        place < paths.len() ==> !path_less(paths[place], path),
    ensures
        place_of(paths, path) == place,
    decreases place,
{
    if place > 0 {
        let rest = paths.drop_first();
        assert forall|i: int| 0 <= i < place - 1 implies path_less(#[trigger] rest[i], path) by {
            assert(rest[i] == paths[i + 1]);
        }
        assert(path_less(paths[0], path));
        lemma_place(rest, path, place - 1);
    }
}

pub proof fn lemma_place_bounds(paths: Seq<Seq<u8>>, path: Seq<u8>)
    ensures
        place_of(paths, path) <= paths.len(),
        forall|i: int| 0 <= i < place_of(paths, path) ==> path_less(#[trigger] paths[i], path),
        place_of(paths, path) < paths.len() ==> !path_less(
            paths[place_of(paths, path) as int],
            path,
        ),
    decreases paths.len(),
{
    if paths.len() > 0 && path_less(paths[0], path) {
        let rest = paths.drop_first();
        lemma_place_bounds(rest, path);
        assert forall|i: int| 0 <= i < place_of(paths, path) implies path_less(
            #[trigger] paths[i],
            path,
        ) by {
            if i > 0 {
                assert(rest[i - 1] == paths[i]);
            }
        }
    }
}

/// Adding a path keeps the order, loses no path, and the path is there afterwards, if not
/// literally, then by its components.
pub proof fn lemma_with_path(paths: Seq<Seq<u8>>, path: Seq<u8>)
    requires
        in_order(paths),
    ensures
        in_order(with_path(paths, path)),
        forall|p: Seq<u8>| paths.contains(p) ==> #[trigger] with_path(paths, path).contains(p),
        exists|i: int|
            0 <= i < with_path(paths, path).len() && same_path(
                #[trigger] with_path(paths, path)[i],
                path,
            ),
        forall|p: Seq<u8>| #[trigger]
            with_path(paths, path).contains(p) ==> paths.contains(p) || p == path,
{
    lemma_place_bounds(paths, path);
    let place = place_of(paths, path) as int;
    let result = with_path(paths, path);
    if place < paths.len() && same_path(paths[place], path) {
        assert(same_path(result[place], path));
    } else {
        assert(result[place] == path);
        assert(same_path(result[place], path));
        assert forall|i: int| place <= i < paths.len() implies path_less(
            path,
            #[trigger] paths[i],
        ) by {
            lemma_path_order_total(paths[place], path);
            if i > place {
                assert(path_less(paths[place], paths[i]));
                lemma_path_order_transitive(path, paths[place], paths[i]);
            }
        }
        assert forall|i: int, j: int| 0 <= i < j < result.len() implies path_less(
            #[trigger] result[i],
            #[trigger] result[j],
        ) by {
            let a = if i < place { i } else { i - 1 };
            let b = if j < place { j } else { j - 1 };
            if i != place {
                assert(result[i] == paths[a]);
            }
            if j != place {
                assert(result[j] == paths[b]);
            }
        }
        assert forall|p: Seq<u8>| paths.contains(p) implies #[trigger] result.contains(p) by {
            let i = choose|i: int| 0 <= i < paths.len() && paths[i] == p;
            if i < place {
                assert(result[i] == p);
            } else {
                assert(result[i + 1] == p);
            }
        }
        assert forall|p: Seq<u8>| #[trigger] result.contains(p) implies paths.contains(p) || p
            == path by {
            let i = choose|i: int| 0 <= i < result.len() && result[i] == p;
            if i < place {
                assert(paths[i] == p);
            } else if i > place {
                assert(paths[i - 1] == p);
            }
        }
    }
}

/// Adds a path at its place, unless it is there already.
pub fn insert_path(paths: &mut Vec<FilePath>, path: FilePath)
    requires
        in_order(path_bytes(old(paths)@)),
    ensures
        path_bytes(final(paths)@) == with_path(path_bytes(old(paths)@), path@),
        in_order(path_bytes(final(paths)@)),
{
    let ghost before = path_bytes(paths@);
    let mut place: usize = 0;
    while place < paths.len() && paths[place].precedes(&path)
        invariant
            place <= paths@.len(),
            before == path_bytes(paths@),
            forall|i: int| 0 <= i < place ==> path_less(#[trigger] before[i], path@),
        decreases paths@.len() - place,
    {
        assert(before[place as int] == paths@[place as int]@);
        place = place + 1;
    }
    proof {
        lemma_place(before, path@, place as int);
        lemma_with_path(before, path@);
    }
    if place < paths.len() {
        assert(before[place as int] == paths@[place as int]@);
        proof {
            lemma_path_order_total(before[place as int], path@);
        }
        if !path.precedes(&paths[place]) {
            return;
        }
    }
    paths.insert(place, path);
    assert(path_bytes(paths@) =~= before.insert(place as int, path@));
}

/// A copy of paths.
pub fn copy_paths(paths: &Vec<FilePath>) -> (copy: Vec<FilePath>)
    ensures
        path_bytes(copy@) == path_bytes(paths@),
        copy@.len() == paths@.len(),
        forall|n: int| 0 <= n < copy@.len() ==> (#[trigger] copy@[n]).bytes@ == paths@[n].bytes@,
{
    let mut copy: Vec<FilePath> = Vec::new();
    let mut i: usize = 0;
    while i < paths.len()
        invariant
            i <= paths@.len(),
            copy@.len() == i,
            forall|n: int| 0 <= n < i ==> (#[trigger] copy@[n])@ == paths@[n]@,
        decreases paths@.len() - i,
    {
        copy.push(paths[i].clone());
        i = i + 1;
    }
    assert(path_bytes(copy@) =~= path_bytes(paths@));
    copy
}

/// The root comes before all other components, then `.`, then `..`, then names; names are in the
/// order of their bytes.
pub proof fn lemma_order_of_components(a: Seq<u8>, b: Seq<u8>)
    ensures
        a == seq![47u8] ==> (component_less(a, b) <==> b != seq![47u8]),
        a == seq![46u8] ==> (component_less(a, b) <==> b != seq![47u8] && b != seq![46u8]),
        a == seq![46u8, 46u8] ==> (component_less(a, b) <==> b != seq![47u8] && b != seq![46u8] && b
            != seq![46u8, 46u8]),
        a != seq![47u8] && a != seq![46u8] && a != seq![46u8, 46u8] ==> (component_less(a, b)
            <==> b != seq![47u8] && b != seq![46u8] && b != seq![46u8, 46u8] && bytes_less(a, b)),
{
    lemma_bytes_less_total(a, b);
    assert(seq![47u8][0] == 47u8);
    assert(seq![46u8][0] == 46u8);
    assert(seq![46u8].len() != seq![46u8, 46u8].len());
    assert(seq![47u8].len() != seq![46u8, 46u8].len());
    assert(seq![46u8] != seq![47u8]);
}

/// Paths are ordered by the first component in which they differ, and what leads to something comes
/// before it.
pub proof fn lemma_first_component_decides(a: Seq<u8>, b: Seq<u8>)
    ensures
        path_less(a, b) <==> exists|k: int|
            {
                &&& 0 <= k < components(b).len()
                &&& k <= components(a).len()
                &&& #[trigger] components(a).take(k) == components(b).take(k)
                &&& k == components(a).len() || (components(a)[k] != components(b)[k]
                    && component_less(components(a)[k], components(b)[k]))
            },
{
    lemma_first_of_components(components(a), components(b));
}

proof fn lemma_first_of_components(a: Seq<Seq<u8>>, b: Seq<Seq<u8>>)
    ensures
        components_less(a, b) <==> exists|k: int|
            {
                &&& 0 <= k < b.len()
                &&& k <= a.len()
                &&& #[trigger] a.take(k) == b.take(k)
                &&& k == a.len() || (a[k] != b[k] && component_less(a[k], b[k]))
            },
    decreases a.len(),
{
    if a.len() > 0 && b.len() > 0 && a[0] == b[0] {
        let x = a.drop_first();
        let y = b.drop_first();
        lemma_first_of_components(x, y);
        if components_less(a, b) {
            let k = choose|k: int|
                0 <= k < y.len() && k <= x.len() && #[trigger] x.take(k) == y.take(k) && (k
                    == x.len() || (x[k] != y[k] && component_less(x[k], y[k])));
            assert(a.take(k + 1) =~= seq![a[0]] + x.take(k));
            assert(b.take(k + 1) =~= seq![b[0]] + y.take(k));
            assert(k + 1 == a.len() || (a[k + 1] != b[k + 1] && component_less(a[k + 1], b[k + 1])));
        }
        if exists|k: int|
            0 <= k < b.len() && k <= a.len() && #[trigger] a.take(k) == b.take(k) && (k == a.len()
                || (a[k] != b[k] && component_less(a[k], b[k]))) {
            let k = choose|k: int|
                0 <= k < b.len() && k <= a.len() && #[trigger] a.take(k) == b.take(k) && (k
                    == a.len() || (a[k] != b[k] && component_less(a[k], b[k])));
            assert(k > 0);
            assert(x.take(k - 1) =~= a.take(k).drop_first());
            assert(y.take(k - 1) =~= b.take(k).drop_first());
            assert(k - 1 == x.len() || (x[k - 1] != y[k - 1] && component_less(x[k - 1], y[k - 1])));
        }
    } else {
        if components_less(a, b) {
            assert(a.take(0) =~= b.take(0));
        }
        if exists|k: int|
            0 <= k < b.len() && k <= a.len() && #[trigger] a.take(k) == b.take(k) && (k == a.len()
                || (a[k] != b[k] && component_less(a[k], b[k]))) {
            let k = choose|k: int|
                0 <= k < b.len() && k <= a.len() && #[trigger] a.take(k) == b.take(k) && (k
                    == a.len() || (a[k] != b[k] && component_less(a[k], b[k])));
            if k > 0 {
                assert(a.take(k)[0] == a[0]);
                assert(b.take(k)[0] == b[0]);
            }
        }
    }
}

/// A path is added once: where one with the same components is there, nothing changes, and else
/// there is one path more, which is the given one.
pub proof fn lemma_path_is_added_once(paths: Seq<Seq<u8>>, path: Seq<u8>)
    requires
        in_order(paths),
    ensures
        (exists|i: int| 0 <= i < paths.len() && components(#[trigger] paths[i]) == components(path))
            ==> with_path(paths, path) == paths,
        (forall|i: int| 0 <= i < paths.len() ==> components(#[trigger] paths[i]) != components(path))
            ==> with_path(paths, path).len() == paths.len() + 1 && with_path(paths, path).contains(
            path,
        ) && forall|i: int|
            0 <= i < paths.len() ==> with_path(paths, path).contains(#[trigger] paths[i]),
{
    lemma_with_path(paths, path);
    lemma_place_bounds(paths, path);
    let place = place_of(paths, path) as int;
    if exists|i: int| 0 <= i < paths.len() && components(#[trigger] paths[i]) == components(path) {
        let i = choose|i: int|
            0 <= i < paths.len() && components(#[trigger] paths[i]) == components(path);
        lemma_path_order_total(paths[i], path);
        if i < place {
            assert(path_less(paths[i], path));
        } else if i > place {
            assert(path_less(paths[place], paths[i]));
            assert(path_less(paths[place], path));
        }
    } else {
        let result = with_path(paths, path);
        assert(result == paths.insert(place, path));
        assert(result[place] == path);
        assert forall|i: int| 0 <= i < paths.len() implies result.contains(#[trigger] paths[i]) by {
            assert(paths.contains(paths[i]));
        }
    }
}

/// There are as many byte strings as paths, and each is that of its path.
pub proof fn lemma_path_bytes_are_those_of_the_paths(paths: Seq<FilePath>)
    ensures
        path_bytes(paths).len() == paths.len(),
        forall|i: int| 0 <= i < paths.len() ==> #[trigger] path_bytes(paths)[i] == paths[i].bytes@,
{
}

/// However often a path is added, each stands before all that come later in the order of paths, so
/// that no two have the same components.
pub proof fn lemma_added_paths_stay_in_order(paths: Seq<Seq<u8>>, path: Seq<u8>)
    requires
        forall|i: int, j: int|
            0 <= i < j < paths.len() ==> path_less(#[trigger] paths[i], #[trigger] paths[j]),
    ensures
        ({
            let result = with_path(paths, path);
            forall|i: int, j: int|
                0 <= i < j < result.len() ==> path_less(#[trigger] result[i], #[trigger] result[j])
                    && components(result[i]) != components(result[j])
        }),
{
    assert(in_order(paths));
    lemma_with_path(paths, path);
    let result = with_path(paths, path);
    assert forall|i: int, j: int| 0 <= i < j < result.len() implies path_less(
        #[trigger] result[i],
        #[trigger] result[j],
    ) && components(result[i]) != components(result[j]) by {
        assert(in_order(result));
        lemma_path_order_total(result[i], result[j]);
    }
}

} // verus!
