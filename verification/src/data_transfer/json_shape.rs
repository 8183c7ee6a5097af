//! The nesting shape of a JSON value (what the package limits look at):
//! scalars, arrays and objects, with the nesting depth counted without
//! recursion so that a maliciously deep value cannot exhaust the call stack.

use vstd::prelude::*;

verus! {

/// Shape of a JSON value: object keys and scalar contents do not matter here.
#[derive(Debug, PartialEq, Eq)]
pub enum JsonShape {
    /// A string, number, boolean or null.
    Scalar,
    /// An array of values.
    Array(Vec<JsonShape>),
    /// The values of an object.
    Object(Vec<JsonShape>),
}

/// Nesting depth: a scalar is 1, a container is one more than its deepest item.
pub open spec fn depth(t: JsonShape) -> nat
    decreases t, 1nat,
{
    match t {
        JsonShape::Scalar => 1,
        JsonShape::Array(items) => 1 + max_depth(items@),
        JsonShape::Object(items) => 1 + max_depth(items@),
    }
}

/// Deepest depth among values (0 for none).
pub open spec fn max_depth(s: Seq<JsonShape>) -> nat
    decreases s, 0nat,
{
    if s.len() == 0 {
        0
    } else {
        let a = max_depth(s.drop_last());
        let b = depth(s.last());
        if a >= b {
            a
        } else {
            b
        }
    }
}

/// Number of values in a shape, itself included.
pub open spec fn size(t: JsonShape) -> nat
    decreases t, 1nat,
{
    match t {
        JsonShape::Scalar => 1,
        JsonShape::Array(items) => 1 + total_size(items@),
        JsonShape::Object(items) => 1 + total_size(items@),
    }
}

/// Number of values in a sequence of shapes.
pub open spec fn total_size(s: Seq<JsonShape>) -> nat
    decreases s, 0nat,
{
    if s.len() == 0 {
        0
    } else {
        total_size(s.drop_last()) + size(s.last())
    }
}

/// The items of a container (none for a scalar).
pub open spec fn children(t: JsonShape) -> Seq<JsonShape> {
    match t {
        JsonShape::Scalar => Seq::empty(),
        JsonShape::Array(items) => items@,
        JsonShape::Object(items) => items@,
    }
}

/// The larger of two integers.
pub open spec fn imax(a: int, b: int) -> int {
    if a >= b {
        a
    } else {
        b
    }
}

/// What an entry (value, depth) of the work stack still contributes.
pub open spec fn pending(e: (JsonShape, nat)) -> int {
    e.1 + depth(e.0) - 1
}

/// Largest contribution on the work stack (0 for an empty stack).
pub open spec fn stack_max(s: Seq<(JsonShape, nat)>) -> int
    decreases s.len(),
{
    if s.len() == 0 {
        0
    } else {
        let a = stack_max(s.drop_last());
        let b = pending(s.last());
        if a >= b {
            a
        } else {
            b
        }
    }
}

/// Values still to visit on the work stack.
pub open spec fn stack_size(s: Seq<(JsonShape, nat)>) -> nat
    decreases s.len(),
{
    if s.len() == 0 {
        0
    } else {
        stack_size(s.drop_last()) + size(s.last().0)
    }
}

/// Work stack entries seen as values.
pub open spec fn stack_view(s: Seq<(&JsonShape, usize)>) -> Seq<(JsonShape, nat)> {
    s.map_values(|e: (&JsonShape, usize)| (*e.0, e.1 as nat))
}

/// A container is one deeper than each item, and holds more values than all items.
proof fn lemma_children(t: JsonShape)
    ensures
        depth(t) == 1 + max_depth(children(t)),
        size(t) == 1 + total_size(children(t)),
{
}

/// Depth of a prefix of items grows by the next item.
proof fn lemma_max_depth_push(s: Seq<JsonShape>, j: int)
    requires
        0 <= j < s.len(),
    ensures
        max_depth(s.subrange(0, j + 1)) == if max_depth(s.subrange(0, j)) >= depth(s[j]) {
            max_depth(s.subrange(0, j))
        } else {
            depth(s[j])
        },
        total_size(s.subrange(0, j + 1)) == total_size(s.subrange(0, j)) + size(s[j]),
{
    assert(s.subrange(0, j + 1).drop_last() =~= s.subrange(0, j));
}

/// Nesting depth of a JSON shape, counted with an explicit work stack.
pub fn json_depth(value: &JsonShape) -> (r: usize)
    requires
        size(*value) <= usize::MAX,
    ensures
        r == depth(*value),
{
    let mut deepest: usize = 0;
    let mut stack: Vec<(&JsonShape, usize)> = Vec::new();
    stack.push((value, 1));
    proof {
        assert(stack_view(stack@) =~= seq![(*value, 1nat)]);
        assert(stack_view(stack@).drop_last() =~= Seq::<(JsonShape, nat)>::empty());
        assert(stack_max(Seq::<(JsonShape, nat)>::empty()) == 0);
        assert(stack_max(stack_view(stack@)) == pending((*value, 1nat)));
    }
    while stack.len() > 0
        invariant
            imax(deepest as int, stack_max(stack_view(stack@))) == depth(*value),
            forall|i: int| 0 <= i < stack@.len() ==> 1 <= (#[trigger] stack@[i]).1,
            forall|i: int| 0 <= i < stack@.len() ==> (#[trigger] stack@[i]).1 + size(*stack@[i].0) <= size(*value) + 1,
            size(*value) <= usize::MAX,
        decreases stack_size(stack_view(stack@)),
    {
        let ghost before = stack_view(stack@);
        let (node, d) = stack.pop().unwrap();
        let ghost rest = stack_view(stack@);
        proof {
            assert(rest =~= before.drop_last());
            assert(before.last() == (*node, d as nat));
            lemma_children(*node);
        }
        if d > deepest {
            deepest = d;
        }
        let ghost deep1 = deepest as int;
        let items: &Vec<JsonShape> = match node {
            JsonShape::Scalar => {
                proof {
                    assert(pending((*node, d as nat)) == d);
                }
                continue;
            },
            JsonShape::Array(items) => items,
            JsonShape::Object(items) => items,
        };
        assert(items@ == children(*node));
        proof {
            if items@.len() > 0 {
                assert(size(*node) >= 2) by {
                    lemma_max_depth_push(items@, 0);
                    assert(items@.subrange(0, 0).len() == 0);
                    assert(size(items@[0]) >= 1) by {
                        lemma_children(items@[0]);
                    }
                    assert(items@.subrange(0, items@.len() as int) =~= items@);
                    lemma_total_size_prefix(items@, 1);
                }
            }
        }
        let mut j: usize = 0;
        while j < items.len()
            invariant
                j <= items@.len(),
                items@ == children(*node),
                deep1 == deepest as int,
                d as int <= deep1,
                1 <= d,
                d + size(*node) <= size(*value) + 1,
                size(*value) <= usize::MAX,
                imax(deep1, stack_max(stack_view(stack@))) == imax(
                    imax(deep1, stack_max(rest)),
                    d + max_depth(items@.subrange(0, j as int)),
                ),
                rest.len() <= stack_view(stack@).len(),
                stack_size(stack_view(stack@)) == stack_size(rest) + total_size(items@.subrange(0, j as int)),
                forall|i: int| 0 <= i < stack@.len() ==> 1 <= (#[trigger] stack@[i]).1,
                forall|i: int| 0 <= i < stack@.len() ==> (#[trigger] stack@[i]).1 + size(*stack@[i].0) <= size(*value) + 1,
            decreases items@.len() - j,
        {
            let ghost s0 = stack_view(stack@);
            proof {
                lemma_max_depth_push(items@, j as int);
                lemma_total_size_prefix(items@, j as int + 1);
                assert(items@.subrange(0, items@.len() as int) =~= items@);
                assert(total_size(items@) == total_size(children(*node)));
                lemma_children(items@[j as int]);
            }
            stack.push((&items[j], d + 1));
            proof {
                assert(stack_view(stack@) =~= s0.push((items@[j as int], (d + 1) as nat)));
                assert(stack_view(stack@).drop_last() =~= s0);
            }
            j = j + 1;
        }
        proof {
            assert(items@.subrange(0, items@.len() as int) =~= items@);
        }
    }
    deepest
}

/// The items of any prefix hold no more values than all items.
proof fn lemma_total_size_prefix(s: Seq<JsonShape>, j: int)
    requires
        0 <= j <= s.len(),
    ensures
        total_size(s.subrange(0, j)) <= total_size(s),
    decreases s.len() - j,
{
    if j < s.len() {
        lemma_max_depth_push(s, j);
        lemma_total_size_prefix(s, j + 1);
    } else {
        assert(s.subrange(0, j) =~= s);
    }
}

} // verus!
