//! Identifiers and row paths.

use vstd::prelude::*;
use crate::order;
use crate::order::{Key, Modeled, Order, compare_text, dup_vec, same_vec};

verus! {

/// Stable identity of a typed field. Cells are addressed by column and row path.
#[derive(Clone, Debug, PartialEq, Eq, PartialOrd, Ord, Hash)]
pub struct ColumnId(String);

impl DeepView for ColumnId {
    type V = Seq<char>;

    closed spec fn deep_view(&self) -> Seq<char> {
        self.0@
    }
}

impl View for ColumnId {
    type V = Seq<char>;

    open spec fn view(&self) -> Seq<char> {
        self.deep_view()
    }
}

impl ColumnId {
    pub fn new(id: &str) -> (r: Self)
        ensures
            r@ == id@,
    {
        ColumnId(id.to_owned())
    }

    pub fn as_str(&self) -> (r: &str)
        ensures
            r@ == self@,
    {
        self.0.as_str()
    }

    /// The identifier's own text.
    pub fn to_string(&self) -> (r: String)
        ensures
            r@ == self@,
    {
        self.0.clone()
    }
}

impl Modeled for ColumnId {
    fn dup(&self) -> (r: Self) {
        ColumnId(self.0.clone())
    }

    fn same(&self, other: &Self) -> (b: bool) {
        self.0 == other.0
    }
}

impl Key for ColumnId {
    open spec fn order(a: Seq<char>, b: Seq<char>) -> Order {
        order::text_order(a, b)
    }

    proof fn order_equal(a: Seq<char>, b: Seq<char>) {
        String::order_equal(a, b);
    }

    proof fn order_flip(a: Seq<char>, b: Seq<char>) {
        String::order_flip(a, b);
    }

    proof fn order_transitive(a: Seq<char>, b: Seq<char>, c: Seq<char>) {
        String::order_transitive(a, b, c);
    }

    fn compare(&self, other: &Self) -> (o: Order) {
        compare_text(self.0.as_str(), other.0.as_str())
    }
}

/// Identity of an ordered container of columns.
#[derive(Clone, Debug, PartialEq, Eq, PartialOrd, Ord, Hash)]
pub struct GroupId(String);

impl DeepView for GroupId {
    type V = Seq<char>;

    closed spec fn deep_view(&self) -> Seq<char> {
        self.0@
    }
}

impl View for GroupId {
    type V = Seq<char>;

    open spec fn view(&self) -> Seq<char> {
        self.deep_view()
    }
}

impl GroupId {
    pub fn new(id: &str) -> (r: Self)
        ensures
            r@ == id@,
    {
        GroupId(id.to_owned())
    }

    pub fn as_str(&self) -> (r: &str)
        ensures
            r@ == self@,
    {
        self.0.as_str()
    }

    /// The identifier's own text.
    pub fn to_string(&self) -> (r: String)
        ensures
            r@ == self@,
    {
        self.0.clone()
    }
}

impl Modeled for GroupId {
    fn dup(&self) -> (r: Self) {
        GroupId(self.0.clone())
    }

    fn same(&self, other: &Self) -> (b: bool) {
        self.0 == other.0
    }
}

impl Key for GroupId {
    open spec fn order(a: Seq<char>, b: Seq<char>) -> Order {
        order::text_order(a, b)
    }

    proof fn order_equal(a: Seq<char>, b: Seq<char>) {
        String::order_equal(a, b);
    }

    proof fn order_flip(a: Seq<char>, b: Seq<char>) {
        String::order_flip(a, b);
    }

    proof fn order_transitive(a: Seq<char>, b: Seq<char>, c: Seq<char>) {
        String::order_transitive(a, b, c);
    }

    fn compare(&self, other: &Self) -> (o: Order) {
        compare_text(self.0.as_str(), other.0.as_str())
    }
}

/// Identity of a record, a long-lived case file.
#[derive(Clone, Debug, PartialEq, Eq, PartialOrd, Ord, Hash)]
pub struct RecordId(String);

impl DeepView for RecordId {
    type V = Seq<char>;

    closed spec fn deep_view(&self) -> Seq<char> {
        self.0@
    }
}

impl View for RecordId {
    type V = Seq<char>;

    open spec fn view(&self) -> Seq<char> {
        self.deep_view()
    }
}

impl RecordId {
    pub fn new(id: &str) -> (r: Self)
        ensures
            r@ == id@,
    {
        RecordId(id.to_owned())
    }

    pub fn as_str(&self) -> (r: &str)
        ensures
            r@ == self@,
    {
        self.0.as_str()
    }

    /// The identifier's own text.
    pub fn to_string(&self) -> (r: String)
        ensures
            r@ == self@,
    {
        self.0.clone()
    }
}

impl Modeled for RecordId {
    fn dup(&self) -> (r: Self) {
        RecordId(self.0.clone())
    }

    fn same(&self, other: &Self) -> (b: bool) {
        self.0 == other.0
    }
}

impl Key for RecordId {
    open spec fn order(a: Seq<char>, b: Seq<char>) -> Order {
        order::text_order(a, b)
    }

    proof fn order_equal(a: Seq<char>, b: Seq<char>) {
        String::order_equal(a, b);
    }

    proof fn order_flip(a: Seq<char>, b: Seq<char>) {
        String::order_flip(a, b);
    }

    proof fn order_transitive(a: Seq<char>, b: Seq<char>, c: Seq<char>) {
        String::order_transitive(a, b, c);
    }

    fn compare(&self, other: &Self) -> (o: Order) {
        compare_text(self.0.as_str(), other.0.as_str())
    }
}

/// Identity of one instance of a `many` group.
#[derive(Clone, Debug, PartialEq, Eq, PartialOrd, Ord, Hash)]
pub struct ItemId(String);

impl DeepView for ItemId {
    type V = Seq<char>;

    closed spec fn deep_view(&self) -> Seq<char> {
        self.0@
    }
}

impl View for ItemId {
    type V = Seq<char>;

    open spec fn view(&self) -> Seq<char> {
        self.deep_view()
    }
}

impl ItemId {
    pub fn new(id: &str) -> (r: Self)
        ensures
            r@ == id@,
    {
        ItemId(id.to_owned())
    }

    pub fn as_str(&self) -> (r: &str)
        ensures
            r@ == self@,
    {
        self.0.as_str()
    }

    /// The identifier's own text.
    pub fn to_string(&self) -> (r: String)
        ensures
            r@ == self@,
    {
        self.0.clone()
    }
}

impl Modeled for ItemId {
    fn dup(&self) -> (r: Self) {
        ItemId(self.0.clone())
    }

    fn same(&self, other: &Self) -> (b: bool) {
        self.0 == other.0
    }
}

impl Key for ItemId {
    open spec fn order(a: Seq<char>, b: Seq<char>) -> Order {
        order::text_order(a, b)
    }

    proof fn order_equal(a: Seq<char>, b: Seq<char>) {
        String::order_equal(a, b);
    }

    proof fn order_flip(a: Seq<char>, b: Seq<char>) {
        String::order_flip(a, b);
    }

    proof fn order_transitive(a: Seq<char>, b: Seq<char>, c: Seq<char>) {
        String::order_transitive(a, b, c);
    }

    fn compare(&self, other: &Self) -> (o: Order) {
        compare_text(self.0.as_str(), other.0.as_str())
    }
}

/// Content address of an immutable published schema version.
#[derive(Clone, Debug, PartialEq, Eq, PartialOrd, Ord, Hash)]
pub struct RevisionId(String);

impl DeepView for RevisionId {
    type V = Seq<char>;

    closed spec fn deep_view(&self) -> Seq<char> {
        self.0@
    }
}

impl View for RevisionId {
    type V = Seq<char>;

    open spec fn view(&self) -> Seq<char> {
        self.deep_view()
    }
}

impl RevisionId {
    pub fn new(id: &str) -> (r: Self)
        ensures
            r@ == id@,
    {
        RevisionId(id.to_owned())
    }

    pub fn as_str(&self) -> (r: &str)
        ensures
            r@ == self@,
    {
        self.0.as_str()
    }

    /// The identifier's own text.
    pub fn to_string(&self) -> (r: String)
        ensures
            r@ == self@,
    {
        self.0.clone()
    }
}

impl Modeled for RevisionId {
    fn dup(&self) -> (r: Self) {
        RevisionId(self.0.clone())
    }

    fn same(&self, other: &Self) -> (b: bool) {
        self.0 == other.0
    }
}

impl Key for RevisionId {
    open spec fn order(a: Seq<char>, b: Seq<char>) -> Order {
        order::text_order(a, b)
    }

    proof fn order_equal(a: Seq<char>, b: Seq<char>) {
        String::order_equal(a, b);
    }

    proof fn order_flip(a: Seq<char>, b: Seq<char>) {
        String::order_flip(a, b);
    }

    proof fn order_transitive(a: Seq<char>, b: Seq<char>, c: Seq<char>) {
        String::order_transitive(a, b, c);
    }

    fn compare(&self, other: &Self) -> (o: Order) {
        compare_text(self.0.as_str(), other.0.as_str())
    }
}

/// Identity of a published, reusable group definition.
#[derive(Clone, Debug, PartialEq, Eq, PartialOrd, Ord, Hash)]
pub struct BlockId(String);

impl DeepView for BlockId {
    type V = Seq<char>;

    closed spec fn deep_view(&self) -> Seq<char> {
        self.0@
    }
}

impl View for BlockId {
    type V = Seq<char>;

    open spec fn view(&self) -> Seq<char> {
        self.deep_view()
    }
}

impl BlockId {
    pub fn new(id: &str) -> (r: Self)
        ensures
            r@ == id@,
    {
        BlockId(id.to_owned())
    }

    pub fn as_str(&self) -> (r: &str)
        ensures
            r@ == self@,
    {
        self.0.as_str()
    }

    /// The identifier's own text.
    pub fn to_string(&self) -> (r: String)
        ensures
            r@ == self@,
    {
        self.0.clone()
    }
}

impl Modeled for BlockId {
    fn dup(&self) -> (r: Self) {
        BlockId(self.0.clone())
    }

    fn same(&self, other: &Self) -> (b: bool) {
        self.0 == other.0
    }
}

impl Key for BlockId {
    open spec fn order(a: Seq<char>, b: Seq<char>) -> Order {
        order::text_order(a, b)
    }

    proof fn order_equal(a: Seq<char>, b: Seq<char>) {
        String::order_equal(a, b);
    }

    proof fn order_flip(a: Seq<char>, b: Seq<char>) {
        String::order_flip(a, b);
    }

    proof fn order_transitive(a: Seq<char>, b: Seq<char>, c: Seq<char>) {
        String::order_transitive(a, b, c);
    }

    fn compare(&self, other: &Self) -> (o: Order) {
        compare_text(self.0.as_str(), other.0.as_str())
    }
}

/// Identity of a published nomenclature.
#[derive(Clone, Debug, PartialEq, Eq, PartialOrd, Ord, Hash)]
pub struct NomenclatureId(String);

impl DeepView for NomenclatureId {
    type V = Seq<char>;

    closed spec fn deep_view(&self) -> Seq<char> {
        self.0@
    }
}

impl View for NomenclatureId {
    type V = Seq<char>;

    open spec fn view(&self) -> Seq<char> {
        self.deep_view()
    }
}

impl NomenclatureId {
    pub fn new(id: &str) -> (r: Self)
        ensures
            r@ == id@,
    {
        NomenclatureId(id.to_owned())
    }

    pub fn as_str(&self) -> (r: &str)
        ensures
            r@ == self@,
    {
        self.0.as_str()
    }

    /// The identifier's own text.
    pub fn to_string(&self) -> (r: String)
        ensures
            r@ == self@,
    {
        self.0.clone()
    }
}

impl Modeled for NomenclatureId {
    fn dup(&self) -> (r: Self) {
        NomenclatureId(self.0.clone())
    }

    fn same(&self, other: &Self) -> (b: bool) {
        self.0 == other.0
    }
}

impl Key for NomenclatureId {
    open spec fn order(a: Seq<char>, b: Seq<char>) -> Order {
        order::text_order(a, b)
    }

    proof fn order_equal(a: Seq<char>, b: Seq<char>) {
        String::order_equal(a, b);
    }

    proof fn order_flip(a: Seq<char>, b: Seq<char>) {
        String::order_flip(a, b);
    }

    proof fn order_transitive(a: Seq<char>, b: Seq<char>, c: Seq<char>) {
        String::order_transitive(a, b, c);
    }

    fn compare(&self, other: &Self) -> (o: Order) {
        compare_text(self.0.as_str(), other.0.as_str())
    }
}

/// Identity of a resolver declaration.
#[derive(Clone, Debug, PartialEq, Eq, PartialOrd, Ord, Hash)]
pub struct ResolverId(String);

impl DeepView for ResolverId {
    type V = Seq<char>;

    closed spec fn deep_view(&self) -> Seq<char> {
        self.0@
    }
}

impl View for ResolverId {
    type V = Seq<char>;

    open spec fn view(&self) -> Seq<char> {
        self.deep_view()
    }
}

impl ResolverId {
    pub fn new(id: &str) -> (r: Self)
        ensures
            r@ == id@,
    {
        ResolverId(id.to_owned())
    }

    pub fn as_str(&self) -> (r: &str)
        ensures
            r@ == self@,
    {
        self.0.as_str()
    }

    /// The identifier's own text.
    pub fn to_string(&self) -> (r: String)
        ensures
            r@ == self@,
    {
        self.0.clone()
    }
}

impl Modeled for ResolverId {
    fn dup(&self) -> (r: Self) {
        ResolverId(self.0.clone())
    }

    fn same(&self, other: &Self) -> (b: bool) {
        self.0 == other.0
    }
}

impl Key for ResolverId {
    open spec fn order(a: Seq<char>, b: Seq<char>) -> Order {
        order::text_order(a, b)
    }

    proof fn order_equal(a: Seq<char>, b: Seq<char>) {
        String::order_equal(a, b);
    }

    proof fn order_flip(a: Seq<char>, b: Seq<char>) {
        String::order_flip(a, b);
    }

    proof fn order_transitive(a: Seq<char>, b: Seq<char>, c: Seq<char>) {
        String::order_transitive(a, b, c);
    }

    fn compare(&self, other: &Self) -> (o: Order) {
        compare_text(self.0.as_str(), other.0.as_str())
    }
}

/// Identity of an enum option within a nomenclature.
#[derive(Clone, Debug, PartialEq, Eq, PartialOrd, Ord, Hash)]
pub struct OptionId(String);

impl DeepView for OptionId {
    type V = Seq<char>;

    closed spec fn deep_view(&self) -> Seq<char> {
        self.0@
    }
}

impl View for OptionId {
    type V = Seq<char>;

    open spec fn view(&self) -> Seq<char> {
        self.deep_view()
    }
}

impl OptionId {
    pub fn new(id: &str) -> (r: Self)
        ensures
            r@ == id@,
    {
        OptionId(id.to_owned())
    }

    pub fn as_str(&self) -> (r: &str)
        ensures
            r@ == self@,
    {
        self.0.as_str()
    }

    /// The identifier's own text.
    pub fn to_string(&self) -> (r: String)
        ensures
            r@ == self@,
    {
        self.0.clone()
    }
}

impl Modeled for OptionId {
    fn dup(&self) -> (r: Self) {
        OptionId(self.0.clone())
    }

    fn same(&self, other: &Self) -> (b: bool) {
        self.0 == other.0
    }
}

impl Key for OptionId {
    open spec fn order(a: Seq<char>, b: Seq<char>) -> Order {
        order::text_order(a, b)
    }

    proof fn order_equal(a: Seq<char>, b: Seq<char>) {
        String::order_equal(a, b);
    }

    proof fn order_flip(a: Seq<char>, b: Seq<char>) {
        String::order_flip(a, b);
    }

    proof fn order_transitive(a: Seq<char>, b: Seq<char>, c: Seq<char>) {
        String::order_transitive(a, b, c);
    }

    fn compare(&self, other: &Self) -> (o: Order) {
        compare_text(self.0.as_str(), other.0.as_str())
    }
}

/// Identity of a surface, a presentation of a revision.
#[derive(Clone, Debug, PartialEq, Eq, PartialOrd, Ord, Hash)]
pub struct SurfaceId(String);

impl DeepView for SurfaceId {
    type V = Seq<char>;

    closed spec fn deep_view(&self) -> Seq<char> {
        self.0@
    }
}

impl View for SurfaceId {
    type V = Seq<char>;

    open spec fn view(&self) -> Seq<char> {
        self.deep_view()
    }
}

impl SurfaceId {
    pub fn new(id: &str) -> (r: Self)
        ensures
            r@ == id@,
    {
        SurfaceId(id.to_owned())
    }

    pub fn as_str(&self) -> (r: &str)
        ensures
            r@ == self@,
    {
        self.0.as_str()
    }

    /// The identifier's own text.
    pub fn to_string(&self) -> (r: String)
        ensures
            r@ == self@,
    {
        self.0.clone()
    }
}

impl Modeled for SurfaceId {
    fn dup(&self) -> (r: Self) {
        SurfaceId(self.0.clone())
    }

    fn same(&self, other: &Self) -> (b: bool) {
        self.0 == other.0
    }
}

impl Key for SurfaceId {
    open spec fn order(a: Seq<char>, b: Seq<char>) -> Order {
        order::text_order(a, b)
    }

    proof fn order_equal(a: Seq<char>, b: Seq<char>) {
        String::order_equal(a, b);
    }

    proof fn order_flip(a: Seq<char>, b: Seq<char>) {
        String::order_flip(a, b);
    }

    proof fn order_transitive(a: Seq<char>, b: Seq<char>, c: Seq<char>) {
        String::order_transitive(a, b, c);
    }

    fn compare(&self, other: &Self) -> (o: Order) {
        compare_text(self.0.as_str(), other.0.as_str())
    }
}

/// One segment of a row path: which item of which `many` group.
#[derive(Clone, Debug, PartialEq, Eq, PartialOrd, Ord, Hash)]
pub struct PathSeg {
    pub group: GroupId,
    pub item: ItemId,
}

/// The model of [`PathSeg`].
#[verifier::ext_equal]
pub struct PathSegModel {
    pub group: Seq<char>,
    pub item: Seq<char>,
}

impl DeepView for PathSeg {
    type V = PathSegModel;

    open spec fn deep_view(&self) -> PathSegModel {
        PathSegModel {
            group: self.group.deep_view(),
            item: self.item.deep_view(),
        }
    }
}

impl View for PathSeg {
    type V = PathSegModel;

    open spec fn view(&self) -> PathSegModel {
        self.deep_view()
    }
}

impl Modeled for PathSeg {
    fn dup(&self) -> (r: Self) {
        PathSeg {
            group: self.group.dup(),
            item: self.item.dup(),
        }
    }

    fn same(&self, other: &Self) -> (b: bool) {
        self.group.same(&other.group)
            && self.item.same(&other.item)
    }
}

impl Key for PathSeg {
    open spec fn order(a: PathSegModel, b: PathSegModel) -> Order {
        GroupId::order(a.group, b.group).or(ItemId::order(a.item, b.item))
    }

    proof fn order_equal(a: PathSegModel, b: PathSegModel) {
        GroupId::order_equal(a.group, b.group);
        ItemId::order_equal(a.item, b.item);
    }

    proof fn order_flip(a: PathSegModel, b: PathSegModel) {
        GroupId::order_flip(a.group, b.group);
        ItemId::order_flip(a.item, b.item);
    }

    proof fn order_transitive(a: PathSegModel, b: PathSegModel, c: PathSegModel) {
        GroupId::order_equal(a.group, b.group);
        GroupId::order_equal(b.group, c.group);
        if GroupId::order(a.group, b.group) == Order::Less && GroupId::order(b.group, c.group) == Order::Less {
            GroupId::order_transitive(a.group, b.group, c.group);
        }
        ItemId::order_equal(a.item, b.item);
        ItemId::order_equal(b.item, c.item);
        if ItemId::order(a.item, b.item) == Order::Less && ItemId::order(b.item, c.item) == Order::Less {
            ItemId::order_transitive(a.item, b.item, c.item);
        }
    }

    fn compare(&self, other: &Self) -> (o: Order) {
        match self.group.compare(&other.group) {
            Order::Equal => self.item.compare(&other.item),
            o => o,
        }
    }
}

/// A possibly empty sequence of segments. Paths have any depth; how deep
/// a schema may nest is a matter of validation.
#[derive(Clone, Debug, PartialEq, Eq, PartialOrd, Ord, Hash)]
pub struct RowPath(Vec<PathSeg>);

impl DeepView for RowPath {
    type V = Seq<PathSegModel>;

    closed spec fn deep_view(&self) -> Seq<PathSegModel> {
        self.0.deep_view()
    }
}

impl View for RowPath {
    type V = Seq<PathSegModel>;

    open spec fn view(&self) -> Seq<PathSegModel> {
        self.deep_view()
    }
}

impl Modeled for RowPath {
    fn dup(&self) -> (r: Self) {
        RowPath(dup_vec(&self.0))
    }

    fn same(&self, other: &Self) -> (b: bool) {
        same_vec(&self.0, &other.0)
    }
}

impl Key for RowPath {
    open spec fn order(a: Seq<PathSegModel>, b: Seq<PathSegModel>) -> Order {
        order::seq_order::<PathSeg>(a, b)
    }

    proof fn order_equal(a: Seq<PathSegModel>, b: Seq<PathSegModel>) {
        order::seq_order_equal::<PathSeg>(a, b);
    }

    proof fn order_flip(a: Seq<PathSegModel>, b: Seq<PathSegModel>) {
        order::seq_order_flip::<PathSeg>(a, b);
    }

    proof fn order_transitive(
        a: Seq<PathSegModel>,
        b: Seq<PathSegModel>,
        c: Seq<PathSegModel>,
    ) {
        order::seq_order_transitive::<PathSeg>(a, b, c);
    }

    fn compare(&self, other: &Self) -> (o: Order) {
        self.0.compare(&other.0)
    }
}

impl Default for RowPath {
    fn default() -> (r: Self)
        ensures
            r@ == Seq::<PathSegModel>::empty(),
    {
        RowPath::root()
    }
}

impl RowPath {
    /// The empty path: root scope.
    pub fn root() -> (r: Self)
        ensures
            r@ == Seq::<PathSegModel>::empty(),
    {
        let r = RowPath(Vec::new());
        assert(r@ =~= Seq::<PathSegModel>::empty());
        r
    }

    pub fn depth(&self) -> (n: usize)
        ensures
            n == self@.len(),
    {
        self.0.len()
    }

    pub fn is_root(&self) -> (r: bool)
        ensures
            r == (self@.len() == 0),
    {
        self.0.len() == 0
    }

    /// The path one segment deeper.
    pub fn child(&self, seg: PathSeg) -> (r: Self)
        ensures
            r@ == self@.push(seg@),
    {
        let mut segs = dup_vec(&self.0);
        segs.push(seg);
        let r = RowPath(segs);
        assert(r@ =~= self@.push(seg@));
        r
    }

    pub fn segments(&self) -> (r: &[PathSeg])
        ensures
            order::models(r@) == self@,
    {
        assert(order::models(self.0@) =~= self@);
        self.0.as_slice()
    }

    /// Whether `prefix` addresses this path or an ancestor of it.
    pub fn starts_with(&self, prefix: &RowPath) -> (r: bool)
        ensures
            r == prefix@.is_prefix_of(self@),
    {
        if prefix.0.len() > self.0.len() {
            return false;
        }
        let mut i: usize = 0;
        while i < prefix.0.len()
            invariant
                i <= prefix.0.len() <= self.0.len(),
                forall|j: int|
                    0 <= j < i ==> (#[trigger] self.0@[j]).deep_view() == prefix.0@[j].deep_view(),
            decreases prefix.0.len() - i,
        {
            if !self.0[i].same(&prefix.0[i]) {
                assert(self@[i as int] != prefix@[i as int]);
                assert(self@.subrange(0, prefix@.len() as int)[i as int] == self@[i as int]);
                return false;
            }
            i += 1;
        }
        assert(prefix@ =~= self@.subrange(0, prefix@.len() as int));
        true
    }

    /// The path's first `n` segments.
    pub fn take(&self, n: usize) -> (r: Self)
        requires
            n <= self@.len(),
        ensures
            r@ == self@.take(n as int),
    {
        let mut segs = dup_vec(&self.0);
        segs.truncate(n);
        let r = RowPath(segs);
        assert(r@ =~= self@.take(n as int));
        r
    }
}

} // verus!
