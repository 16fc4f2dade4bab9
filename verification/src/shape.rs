//! N-dimensional shapes: element counts, row-major strides and broadcasting.
use crate::error::{Error, Result};
use crate::nd;
use crate::text::{self, push_list, push_usize};
use vstd::arithmetic::mul::*;
use vstd::prelude::*;

verus! {

/// The size of each dimension of a tensor. `[]` is a scalar, `[5]` a vector,
/// `[3, 4]` a matrix.
#[derive(Debug, PartialEq, Eq, Hash)]
pub struct Shape(Vec<usize>);

impl View for Shape {
    type V = Seq<usize>;

    closed spec fn view(&self) -> Seq<usize> {
        self.0@
    }
}

impl Clone for Shape {
    fn clone(&self) -> (r: Self)
        ensures
            r@ == self@,
    {
        let v = self.0.clone();
        assert(v@ =~= self.0@);
        Shape(v)
    }
}

/// The size `i` places from the right; missing leading dimensions count as 1.
pub open spec fn from_right(dims: Seq<usize>, i: int) -> usize {
    if 0 <= i < dims.len() {
        dims[dims.len() - 1 - i]
    } else {
        1
    }
}

/// Whether two sizes can be broadcast together.
pub open spec fn sizes_agree(a: usize, b: usize) -> bool {
    a == b || a == 1 || b == 1
}

/// The size that two sizes broadcast to.
pub open spec fn joint_size(a: usize, b: usize) -> usize {
    if a == 1 {
        b
    } else {
        a
    }
}

/// The larger of two ranks.
pub open spec fn joint_rank(l: Seq<usize>, r: Seq<usize>) -> nat {
    if l.len() >= r.len() {
        l.len()
    } else {
        r.len()
    }
}

/// The sizes `i` places from the right clash.
pub open spec fn clash_at(l: Seq<usize>, r: Seq<usize>, i: int) -> bool {
    !sizes_agree(from_right(l, i), from_right(r, i))
}

/// Two shapes that can be broadcast together.
pub open spec fn broadcastable(l: Seq<usize>, r: Seq<usize>) -> bool {
    forall|i: int| 0 <= i < joint_rank(l, r) ==> !#[trigger] clash_at(l, r, i)
}

/// The shape that two shapes broadcast to.
pub open spec fn broadcast(l: Seq<usize>, r: Seq<usize>) -> Seq<usize> {
    let rank = joint_rank(l, r);
    Seq::new(
        rank,
        |j: int| joint_size(from_right(l, rank - 1 - j), from_right(r, rank - 1 - j)),
    )
}

/// The message about a clash `i` places from the right.
pub open spec fn clash_text(l: Seq<usize>, r: Seq<usize>, i: int) -> Seq<char> {
    "shapes "@ + text::list_text(l) + " and "@ + text::list_text(r)
        + " are not broadcast-compatible (dim "@ + text::decimal(i as nat) + " from right: "@ + text::decimal(
        from_right(l, i) as nat,
    ) + " vs "@ + text::decimal(from_right(r, i) as nat) + ")"@
}

/// The error about two shapes that cannot be broadcast together. It names
/// the first clash from the right.
pub open spec fn is_clash(l: Seq<usize>, r: Seq<usize>, e: Error) -> bool {
    e matches Error::Msg(m) && exists|i: int|
        {
            &&& 0 <= i < joint_rank(l, r)
            &&& #[trigger] clash_at(l, r, i)
            &&& forall|j: int| 0 <= j < i ==> !#[trigger] clash_at(l, r, j)
            &&& m@ == clash_text(l, r, i)
        }
}

/// The strides that read a tensor of the given shape and strides as one of
/// shape `target`: 0 along missing and repeated dimensions, its own along the
/// others.
pub open spec fn strided_repeat(
    dims: Seq<usize>,
    strides: Seq<usize>,
    target: Seq<usize>,
) -> Seq<usize> {
    let lead = target.len() - dims.len();
    Seq::new(
        target.len(),
        |j: int|
            if j >= lead && dims[j - lead] == target[j] {
                strides[j - lead]
            } else {
                0
            },
    )
}

/// The same for a contiguous tensor.
pub open spec fn repeat_strides(dims: Seq<usize>, target: Seq<usize>) -> Seq<usize> {
    strided_repeat(dims, nd::row_major(dims), target)
}

/// The index of the element of `dims` that stands at `index` in a broadcast
/// to a larger shape: leading coordinates are dropped, and a dimension of
/// another size than the target's is read at 0.
pub open spec fn repeated_index(
    index: Seq<usize>,
    dims: Seq<usize>,
    target: Seq<usize>,
) -> Seq<usize> {
    let lead = target.len() - dims.len();
    Seq::new(
        dims.len(),
        |i: int|
            if dims[i] == target[i + lead] {
                index[i + lead]
            } else {
                0
            },
    )
}

impl Shape {
    /// Create a new shape from a vector of dimension sizes.
    pub fn new(dims: Vec<usize>) -> (r: Self)
        ensures
            r@ == dims@,
    {
        Shape(dims)
    }

    /// The dimension sizes as a slice.
    pub fn dims(&self) -> (r: &[usize])
        ensures
            r@ == self@,
    {
        self.0.as_slice()
    }

    /// Number of dimensions (0 for a scalar, 1 for a vector, 2 for a matrix).
    pub fn rank(&self) -> (r: usize)
        ensures
            r == self@.len(),
    {
        self.0.len()
    }

    /// Total number of elements (product of all dimensions). A scalar has
    /// one element.
    pub fn elem_count(&self) -> (r: usize)
        requires
            nd::product(self@) <= usize::MAX,
        ensures
            r == nd::product(self@),
    {
        count_elements(self.0.as_slice())
    }

    /// The contiguous (row-major) strides of this shape. For `[2, 3, 4]` they
    /// are `[12, 4, 1]`.
    pub fn stride_contiguous(&self) -> (r: Vec<usize>)
        requires
            nd::strides_fit(self@),
        ensures
            r@ == nd::row_major(self@),
    {
        let rank: usize = self.0.len();
        let mut strides: Vec<usize> = vec![0usize; rank];
        if rank > 0 {
            proof {
                nd::lemma_product_all(self@);
            }
            strides[rank - 1] = 1;
            let mut i: usize = rank - 1;
            while i > 0
                invariant
                    rank == self.0@.len(),
                    rank == strides@.len(),
                    i < rank,
                    nd::strides_fit(self@),
                    forall|j: int| i <= j < rank ==> #[trigger] strides@[j] == nd::product(self@.skip(j + 1)),
                decreases i,
            {
                proof {
                    nd::lemma_product_step(self@, i as int);
                    assert(nd::product(self@.skip(i as int)) <= usize::MAX);
                    lemma_mul_is_commutative(strides@[i as int] as int, self.0@[i as int] as int);
                }
                strides[i - 1] = strides[i] * self.0[i];
                i -= 1;
            }
        }
        assert(strides@ =~= nd::row_major(self@));
        strides
    }

    /// Size of a specific dimension.
    pub fn dim(&self, d: usize) -> (r: Result<usize>)
        ensures
            match r {
                Ok(n) => d < self@.len() && n == self@[d as int],
                Err(e) => d >= self@.len() && e == (Error::DimOutOfRange {
                    dim: d,
                    rank: self@.len() as usize,
                }),
            },
    {
        if d < self.0.len() {
            Ok(self.0[d])
        } else {
            Err(Error::DimOutOfRange { dim: d, rank: self.0.len() })
        }
    }

    /// The broadcast output shape of two input shapes: shapes are aligned
    /// from the right, sizes agree if they are equal or one of them is 1, and
    /// missing leading dimensions count as 1.
    pub fn broadcast_shape(lhs: &Shape, rhs: &Shape) -> (r: Result<Shape>)
        ensures
            match r {
                Ok(s) => broadcastable(lhs@, rhs@) && s@ == broadcast(lhs@, rhs@),
                Err(e) => is_clash(lhs@, rhs@, e),
            },
    {
        let l = lhs.dims();
        let r = rhs.dims();
        let rank: usize = if l.len() >= r.len() {
            l.len()
        } else {
            r.len()
        };
        // Built from the right, and reversed at the end.
        let mut sizes: Vec<usize> = Vec::with_capacity(rank);
        let mut i: usize = 0;
        while i < rank
            invariant
                l@ == lhs@,
                r@ == rhs@,
                rank == joint_rank(lhs@, rhs@),
                i <= rank,
                sizes@.len() == i,
                forall|j: int| 0 <= j < i ==> !#[trigger] clash_at(lhs@, rhs@, j),
                forall|j: int|
                    0 <= j < i ==> #[trigger] sizes@[j] == joint_size(
                        from_right(lhs@, j),
                        from_right(rhs@, j),
                    ),
            decreases rank - i,
        {
            let ld: usize = if i < l.len() {
                l[l.len() - 1 - i]
            } else {
                1
            };
            let rd: usize = if i < r.len() {
                r[r.len() - 1 - i]
            } else {
                1
            };
            assert(ld == from_right(lhs@, i as int));
            assert(rd == from_right(rhs@, i as int));
            if ld == rd {
                sizes.push(ld);
            } else if ld == 1 {
                sizes.push(rd);
            } else if rd == 1 {
                sizes.push(ld);
            } else {
                assert(clash_at(lhs@, rhs@, i as int));
                let mut m = String::new();
                m.append("shapes ");
                push_list(&mut m, l);
                m.append(" and ");
                push_list(&mut m, r);
                m.append(" are not broadcast-compatible (dim ");
                push_usize(&mut m, i);
                m.append(" from right: ");
                push_usize(&mut m, ld);
                m.append(" vs ");
                push_usize(&mut m, rd);
                m.append(")");
                assert(m@ =~= clash_text(lhs@, rhs@, i as int));
                return Err(Error::Msg(m));
            }
            i += 1;
        }
        let mut dims: Vec<usize> = Vec::with_capacity(rank);
        let mut k: usize = rank;
        while k > 0
            invariant
                k <= rank,
                sizes@.len() == rank,
                dims@.len() == rank - k,
                forall|j: int| 0 <= j < rank - k ==> #[trigger] dims@[j] == sizes@[rank - 1 - j],
            decreases k,
        {
            k -= 1;
            dims.push(sizes[k]);
        }
        assert(dims@ =~= broadcast(lhs@, rhs@));
        Ok(Shape(dims))
    }

    /// The strides that read a tensor of this shape as one of the target
    /// shape: 0 along repeated and missing dimensions.
    pub fn broadcast_strides(&self, target: &Shape) -> (r: Vec<usize>)
        requires
            self@.len() <= target@.len(),
            nd::strides_fit(self@),
        ensures
            r@ == repeat_strides(self@, target@),
    {
        let own = self.stride_contiguous();
        let n: usize = self.0.len();
        let m: usize = target.0.len();
        let mut out: Vec<usize> = vec![0usize; m];
        let lead: usize = m - n;
        let mut i: usize = 0;
        while i < n
            invariant
                i <= n,
                n == self@.len(),
                n == own@.len(),
                own@ == nd::row_major(self@),
                out@.len() == m,
                m == target@.len(),
                lead + n == m,
                forall|j: int| 0 <= j < lead + i ==> #[trigger] out@[j] == repeat_strides(self@, target@)[j],
                forall|j: int| lead + i <= j < out@.len() ==> #[trigger] out@[j] == 0,
            decreases n - i,
        {
            if self.0[i] == target.0[i + lead] {
                out[i + lead] = own[i];
            }
            i += 1;
        }
        assert(out@ =~= repeat_strides(self@, target@));
        out
    }

    /// The shape in square brackets: `[3, 4]`.
    pub fn to_string(&self) -> (r: String)
        ensures
            r@ == text::list_text(self@),
    {
        let mut out = String::new();
        push_list(&mut out, self.0.as_slice());
        assert(out@ =~= text::list_text(self@));
        out
    }
}

/// The product of a list of sizes.
pub(crate) fn count_elements(dims: &[usize]) -> (r: usize)
    requires
        nd::product(dims@) <= usize::MAX,
    ensures
        r == nd::product(dims@),
{
    let n: usize = dims.len();
    proof {
        nd::lemma_product_all(dims@);
    }
    // A size 0 anywhere makes the whole product 0, however large the others.
    let mut z: usize = 0;
    while z < n
        invariant
            n == dims@.len(),
            z <= n,
            forall|j: int| 0 <= j < z ==> #[trigger] dims@[j] > 0,
        decreases n - z,
    {
        if dims[z] == 0 {
            proof {
                nd::lemma_product_zero(dims@);
                assert(dims@[z as int] == 0);
            }
            return 0;
        }
        z += 1;
    }
    let mut count: usize = 1;
    let mut i: usize = n;
    while i > 0
        invariant
            n == dims@.len(),
            i <= n,
            count == nd::product(dims@.skip(i as int)),
            nd::product(dims@) <= usize::MAX,
            forall|j: int| 0 <= j < n ==> #[trigger] dims@[j] > 0,
        decreases i,
    {
        proof {
            nd::lemma_product_step(dims@, i - 1);
            lemma_suffix_le_whole(dims@, i - 1);
            lemma_mul_is_commutative(count as int, dims@[i - 1] as int);
        }
        count = count * dims[i - 1];
        i -= 1;
    }
    count
}

/// Without a size 0 a suffix has at most as many elements as the whole.
proof fn lemma_suffix_le_whole(dims: Seq<usize>, i: int)
    requires
        0 <= i <= dims.len(),
        forall|j: int| 0 <= j < dims.len() ==> #[trigger] dims[j] > 0,
    ensures
        nd::product(dims.skip(i)) <= nd::product(dims),
    decreases i,
{
    if i == 0 {
        nd::lemma_product_all(dims);
    } else {
        lemma_suffix_le_whole(dims, i - 1);
        nd::lemma_product_step(dims, i - 1);
        assert(dims[i - 1] > 0);
        if nd::product(dims.skip(i)) > 0 {
            lemma_mul_increases(dims[i - 1] as int, nd::product(dims.skip(i)) as int);
        }
    }
}

impl vstd::std_specs::convert::FromSpecImpl<()> for Shape {
    open spec fn obeys_from_spec() -> bool {
        false
    }

    open spec fn from_spec(v: ()) -> Shape {
        arbitrary()
    }
}

impl From<()> for Shape {
    /// Scalar shape.
    fn from(v: ()) -> (r: Self)
        ensures
            r@ == Seq::<usize>::empty(),
    {
        Shape(Vec::new())
    }
}

impl vstd::std_specs::convert::FromSpecImpl<usize> for Shape {
    open spec fn obeys_from_spec() -> bool {
        false
    }

    open spec fn from_spec(v: usize) -> Shape {
        arbitrary()
    }
}

impl From<usize> for Shape {
    /// 1-D shape.
    fn from(v: usize) -> (r: Self)
        ensures
            r@ == seq![v],
    {
        Shape(vec![v])
    }
}

impl vstd::std_specs::convert::FromSpecImpl<(usize,)> for Shape {
    open spec fn obeys_from_spec() -> bool {
        false
    }

    open spec fn from_spec(v: (usize,)) -> Shape {
        arbitrary()
    }
}

impl From<(usize,)> for Shape {
    fn from(v: (usize,)) -> (r: Self)
        ensures
            r@ == seq![v.0],
    {
        Shape(vec![v.0])
    }
}

impl vstd::std_specs::convert::FromSpecImpl<(usize, usize)> for Shape {
    open spec fn obeys_from_spec() -> bool {
        false
    }

    open spec fn from_spec(v: (usize, usize)) -> Shape {
        arbitrary()
    }
}

impl From<(usize, usize)> for Shape {
    fn from(v: (usize, usize)) -> (r: Self)
        ensures
            r@ == seq![v.0, v.1],
    {
        Shape(vec![v.0, v.1])
    }
}

impl vstd::std_specs::convert::FromSpecImpl<(usize, usize, usize)> for Shape {
    open spec fn obeys_from_spec() -> bool {
        false
    }

    open spec fn from_spec(v: (usize, usize, usize)) -> Shape {
        arbitrary()
    }
}

impl From<(usize, usize, usize)> for Shape {
    fn from(v: (usize, usize, usize)) -> (r: Self)
        ensures
            r@ == seq![v.0, v.1, v.2],
    {
        Shape(vec![v.0, v.1, v.2])
    }
}

impl vstd::std_specs::convert::FromSpecImpl<(usize, usize, usize, usize)> for Shape {
    open spec fn obeys_from_spec() -> bool {
        false
    }

    open spec fn from_spec(v: (usize, usize, usize, usize)) -> Shape {
        arbitrary()
    }
}

impl From<(usize, usize, usize, usize)> for Shape {
    fn from(v: (usize, usize, usize, usize)) -> (r: Self)
        ensures
            r@ == seq![v.0, v.1, v.2, v.3],
    {
        Shape(vec![v.0, v.1, v.2, v.3])
    }
}

impl vstd::std_specs::convert::FromSpecImpl<Vec<usize>> for Shape {
    open spec fn obeys_from_spec() -> bool {
        false
    }

    open spec fn from_spec(v: Vec<usize>) -> Shape {
        arbitrary()
    }
}

impl From<Vec<usize>> for Shape {
    fn from(v: Vec<usize>) -> (r: Self)
        ensures
            r@ == v@,
    {
        Shape(v)
    }
}

impl<'a> vstd::std_specs::convert::FromSpecImpl<&'a [usize]> for Shape {
    open spec fn obeys_from_spec() -> bool {
        false
    }

    open spec fn from_spec(v: &'a [usize]) -> Shape {
        arbitrary()
    }
}

impl<'a> From<&'a [usize]> for Shape {
    fn from(v: &'a [usize]) -> (r: Self)
        ensures
            r@ == v@,
    {
        Shape(copy_sizes(v))
    }
}

/// A new vector with the numbers of a slice.
pub(crate) fn copy_sizes(s: &[usize]) -> (r: Vec<usize>)
    ensures
        r@ == s@,
{
    let mut v: Vec<usize> = Vec::with_capacity(s.len());
    v.extend_from_slice(s);
    assert(v@ =~= s@);
    v
}

/// Whether two lists of sizes are equal.
pub(crate) fn same_sizes(a: &[usize], b: &[usize]) -> (r: bool)
    ensures
        r <==> a@ == b@,
{
    if a.len() != b.len() {
        return false;
    }
    let n: usize = a.len();
    let mut i: usize = 0;
    while i < n
        invariant
            n == a@.len(),
            n == b@.len(),
            i <= n,
            forall|j: int| 0 <= j < i ==> #[trigger] a@[j] == b@[j],
        decreases n - i,
    {
        if a[i] != b[i] {
            return false;
        }
        i += 1;
    }
    assert(a@ =~= b@);
    true
}

/// Broadcasting does not depend on the order of its two shapes.
pub proof fn law_broadcast_commutes(l: Seq<usize>, r: Seq<usize>)
    ensures
        broadcastable(l, r) <==> broadcastable(r, l),
        broadcastable(l, r) ==> broadcast(l, r) == broadcast(r, l),
{
    assert(joint_rank(l, r) == joint_rank(r, l));
    assert(forall|i: int| #[trigger] clash_at(l, r, i) <==> clash_at(r, l, i));
    assert(forall|i: int| #[trigger] clash_at(r, l, i) <==> clash_at(l, r, i));
    if broadcastable(l, r) {
        let rank = joint_rank(l, r);
        assert forall|j: int| 0 <= j < rank implies #[trigger] broadcast(l, r)[j] == broadcast(
            r,
            l,
        )[j] by {
            assert(!clash_at(l, r, rank - 1 - j));
        }
        assert(broadcast(l, r) =~= broadcast(r, l));
    }
}

/// A shape broadcasts with itself, and with a scalar, to itself.
pub proof fn law_broadcast_with_itself(s: Seq<usize>)
    ensures
        broadcastable(s, s),
        broadcast(s, s) == s,
        broadcastable(s, seq![]),
        broadcast(s, seq![]) == s,
{
    assert(broadcast(s, s) =~= s);
    let none: Seq<usize> = seq![];
    assert(broadcast(s, none) =~= s);
}

/// The size `i` places from the right of a broadcast.
proof fn lemma_broadcast_from_right(l: Seq<usize>, r: Seq<usize>, i: int)
    requires
        0 <= i,
    ensures
        from_right(broadcast(l, r), i) == joint_size(from_right(l, i), from_right(r, i)),
{
}

/// Broadcasting three shapes gives the same result in either grouping, and
/// fails in both or in none.
pub proof fn law_broadcast_associates(a: Seq<usize>, b: Seq<usize>, c: Seq<usize>)
    ensures
        (broadcastable(a, b) && broadcastable(broadcast(a, b), c)) <==> (broadcastable(b, c)
            && broadcastable(a, broadcast(b, c))),
        (broadcastable(a, b) && broadcastable(broadcast(a, b), c)) ==> broadcast(
            broadcast(a, b),
            c,
        ) == broadcast(a, broadcast(b, c)),
{
    let ab = broadcast(a, b);
    let bc = broadcast(b, c);
    assert forall|i: int| 0 <= i implies {
        &&& #[trigger] from_right(ab, i) == joint_size(from_right(a, i), from_right(b, i))
        &&& from_right(bc, i) == joint_size(from_right(b, i), from_right(c, i))
    } by {
        lemma_broadcast_from_right(a, b, i);
        lemma_broadcast_from_right(b, c, i);
    }
    assert forall|i: int| 0 <= i && clash_at(a, b, i) implies i < joint_rank(a, b) by {}
    if broadcastable(a, b) && broadcastable(ab, c) {
        assert forall|i: int| 0 <= i implies !#[trigger] clash_at(b, c, i) by {
            assert(!clash_at(a, b, i));
            assert(!clash_at(ab, c, i));
            assert(from_right(ab, i) == joint_size(from_right(a, i), from_right(b, i)));
        }
        assert forall|i: int| 0 <= i implies !#[trigger] clash_at(a, bc, i) by {
            assert(!clash_at(a, b, i));
            assert(!clash_at(ab, c, i));
            assert(from_right(ab, i) == joint_size(from_right(a, i), from_right(b, i)));
        }
        let left = broadcast(ab, c);
        let right = broadcast(a, bc);
        assert forall|j: int| 0 <= j < left.len() implies #[trigger] left[j] == right[j] by {
            let i = left.len() - 1 - j;
            assert(!clash_at(a, b, i));
            assert(from_right(ab, i) == joint_size(from_right(a, i), from_right(b, i)));
        }
        assert(left =~= right);
    }
    if broadcastable(b, c) && broadcastable(a, bc) {
        assert forall|i: int| 0 <= i implies !#[trigger] clash_at(a, b, i) by {
            assert(!clash_at(b, c, i));
            assert(!clash_at(a, bc, i));
            assert(from_right(ab, i) == joint_size(from_right(a, i), from_right(b, i)));
        }
        assert forall|i: int| 0 <= i implies !#[trigger] clash_at(ab, c, i) by {
            assert(!clash_at(b, c, i));
            assert(!clash_at(a, bc, i));
            assert(from_right(ab, i) == joint_size(from_right(a, i), from_right(b, i)));
        }
    }
}

/// Reading a tensor with its broadcast strides at an index of the target
/// gives the element that is repeated there.
pub proof fn law_broadcast_strides_repeat(
    dims: Seq<usize>,
    target: Seq<usize>,
    index: Seq<usize>,
)
    requires
        dims.len() <= target.len(),
        index.len() == target.len(),
    ensures
        nd::dot(index, repeat_strides(dims, target)) == nd::dot(
            repeated_index(index, dims, target),
            nd::row_major(dims),
        ),
{
    lemma_strided_repeat(dims, nd::row_major(dims), target, index);
}

/// The same for any strides of the repeated tensor.
pub proof fn lemma_strided_repeat(
    dims: Seq<usize>,
    strides: Seq<usize>,
    target: Seq<usize>,
    index: Seq<usize>,
)
    requires
        dims.len() <= target.len(),
        strides.len() == dims.len(),
        index.len() == target.len(),
    ensures
        nd::dot(index, strided_repeat(dims, strides, target)) == nd::dot(
            repeated_index(index, dims, target),
            strides,
        ),
    decreases target.len(),
{
    let lead = target.len() - dims.len();
    let s = strided_repeat(dims, strides, target);
    let ri = repeated_index(index, dims, target);
    if target.len() > 0 {
        let t1 = target.skip(1);
        let i1 = index.skip(1);
        if lead > 0 {
            lemma_strided_repeat(dims, strides, t1, i1);
            assert(s.skip(1) =~= strided_repeat(dims, strides, t1));
            assert(repeated_index(i1, dims, t1) =~= ri);
            assert(index[0] as nat * s[0] as nat == 0) by (nonlinear_arith)
                requires
                    s[0] == 0,
            ;
        } else {
            let d1 = dims.skip(1);
            let st1 = strides.skip(1);
            lemma_strided_repeat(d1, st1, t1, i1);
            assert(s.skip(1) =~= strided_repeat(d1, st1, t1));
            assert(repeated_index(i1, d1, t1) =~= ri.skip(1));
            if dims[0] != target[0] {
                assert(index[0] as nat * s[0] as nat == 0) by (nonlinear_arith)
                    requires
                        s[0] == 0,
                ;
                assert(ri[0] as nat * strides[0] as nat == 0) by (nonlinear_arith)
                    requires
                        ri[0] == 0,
                ;
            }
        }
    }
}

/// The element that a broadcast repeats at a valid index of the target is an
/// element of the tensor.
pub proof fn law_broadcast_index_in_bounds(
    dims: Seq<usize>,
    other: Seq<usize>,
    index: Seq<usize>,
)
    requires
        broadcastable(dims, other),
        nd::in_bounds(index, broadcast(dims, other)),
    ensures
        nd::in_bounds(repeated_index(index, dims, broadcast(dims, other)), dims),
{
    let target = broadcast(dims, other);
    let lead = target.len() - dims.len();
    assert forall|i: int| 0 <= i < dims.len() implies #[trigger] repeated_index(
        index,
        dims,
        target,
    )[i] < dims[i] by {
        assert(index[i + lead] < target[i + lead]);
        assert(!clash_at(dims, other, dims.len() - 1 - i));
    }
}

} // verus!
