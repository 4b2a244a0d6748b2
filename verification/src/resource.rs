//! Resources: the interchangeable (uniform) materials, the unique items, an
//! inventory holding both, how a month's leftover inflow is stored or lost,
//! and the bookkeeping approximation used by the storage display.
use vstd::prelude::*;
use crate::text::{push_char, push_decimal, push_str, decimal};

verus! {

/// A resource of which only a quantity is stored, since all units are equivalent.
#[derive(Clone, Copy, PartialEq, Eq, Debug, Hash, Structural, PartialOrd, Ord)]
pub enum UniformResource {
    Potato,
    Timber,
    Straw,
    Canvas,
    Fieldstone,
    Block,
    Lime,
    Plank,
}

/// Position of a resource in declaration order (the order of `UniformResource::ALL`,
/// and the order its derived `Ord` follows).
pub open spec fn resource_rank(r: UniformResource) -> int {
    match r {
        UniformResource::Potato => 0,
        UniformResource::Timber => 1,
        UniformResource::Straw => 2,
        UniformResource::Canvas => 3,
        UniformResource::Fieldstone => 4,
        UniformResource::Block => 5,
        UniformResource::Lime => 6,
        UniformResource::Plank => 7,
    }
}

/// Every uniform resource, in declaration order.
pub open spec fn all_uniform_resources() -> Seq<UniformResource> {
    seq![
        UniformResource::Potato,
        UniformResource::Timber,
        UniformResource::Straw,
        UniformResource::Canvas,
        UniformResource::Fieldstone,
        UniformResource::Block,
        UniformResource::Lime,
        UniformResource::Plank,
    ]
}

pub open spec fn spec_farmable(r: UniformResource) -> bool {
    matches!(
        r,
        UniformResource::Potato | UniformResource::Canvas | UniformResource::Straw
            | UniformResource::Timber | UniformResource::Lime | UniformResource::Fieldstone
    )
}

pub open spec fn spec_edible(r: UniformResource) -> bool {
    r is Potato
}

impl UniformResource {
    /// Every uniform resource, in declaration order.
    pub fn all() -> (v: Vec<UniformResource>)
        ensures
            v@ == all_uniform_resources(),
    {
        vec![
            UniformResource::Potato,
            UniformResource::Timber,
            UniformResource::Straw,
            UniformResource::Canvas,
            UniformResource::Fieldstone,
            UniformResource::Block,
            UniformResource::Lime,
            UniformResource::Plank,
        ]
    }

    /// Plural display name.
    pub fn label(self) -> (s: &'static str)
        ensures
            s@ == (match self {
                UniformResource::Potato => "Potatoes"@,
                UniformResource::Timber => "Timber"@,
                UniformResource::Straw => "Straw"@,
                UniformResource::Canvas => "Canvas"@,
                UniformResource::Fieldstone => "Fieldstone"@,
                UniformResource::Block => "Blocks"@,
                UniformResource::Lime => "Lime"@,
                UniformResource::Plank => "Planks"@,
            }),
    {
        match self {
            UniformResource::Potato => "Potatoes",
            UniformResource::Timber => "Timber",
            UniformResource::Straw => "Straw",
            UniformResource::Canvas => "Canvas",
            UniformResource::Fieldstone => "Fieldstone",
            UniformResource::Block => "Blocks",
            UniformResource::Lime => "Lime",
            UniformResource::Plank => "Planks",
        }
    }

    /// Maximum units of this material construction can absorb per month; the
    /// same for every material.
    pub fn construct_per_month(self) -> (n: u32)
        ensures
            n == 50,
    {
        50
    }

    /// Whether tearing down a structure built with this resource returns it to
    /// storage: everything but lime and straw.
    pub fn refundable(self) -> (b: bool)
        ensures
            b == !(self is Lime || self is Straw),
    {
        !matches!(self, UniformResource::Lime | UniformResource::Straw)
    }

    /// Whether farms can produce this resource.
    pub fn farmable(self) -> (b: bool)
        ensures
            b == spec_farmable(self),
    {
        matches!(
            self,
            UniformResource::Potato | UniformResource::Canvas | UniformResource::Straw
                | UniformResource::Timber | UniformResource::Lime | UniformResource::Fieldstone
        )
    }

    /// Whether this resource is food: only potatoes are.
    pub fn edible(self) -> (b: bool)
        ensures
            b == spec_edible(self),
    {
        matches!(self, UniformResource::Potato)
    }

    /// Every farmable resource that isn't food, in declaration order.
    pub fn inedible_farmables() -> (v: Vec<UniformResource>)
        ensures
            v@ == all_uniform_resources().filter(|r: UniformResource| spec_farmable(r) && !spec_edible(r)),
    {
        let all = UniformResource::all();
        let mut out: Vec<UniformResource> = Vec::new();
        let ghost pred = |r: UniformResource| spec_farmable(r) && !spec_edible(r);
        for i in 0..all.len()
            invariant
                all@ == all_uniform_resources(),
                out@ == all@.take(i as int).filter(pred),
                pred == (|r: UniformResource| spec_farmable(r) && !spec_edible(r)),
        {
            let r = all[i];
            proof {
                assert(all@.take(i + 1) =~= all@.take(i as int).push(r));
                all@.take(i as int).lemma_filter_push(r, pred);
            }
            let f = r.farmable();
            let e = r.edible();
            assert(f == spec_farmable(r));
            assert(e == spec_edible(r));
            assert(pred(r) == (spec_farmable(r) && !spec_edible(r)));
            let keep = f && !e;
            if keep {
                out.push(r);
            }

        }
        proof {
            assert(all@.take(all@.len() as int) =~= all@);
        }
        out
    }
}

/// The kind of a tool; its kind decides what a farm produces when it
/// specializes with it.
#[derive(Clone, Copy, PartialEq, Eq, Debug, Hash, Structural)]
pub enum ToolKind {
    CarpentersTools,
}

/// How a tool transforms neighbouring production: `input` produced by
/// adjacent farms becomes `output`.
#[derive(Clone, Copy, PartialEq, Eq, Debug, Structural)]
pub struct Specialization {
    pub input: UniformResource,
    pub output: UniformResource,
}

impl ToolKind {
    pub fn label(self) -> (s: &'static str)
        ensures
            s@ == "Carpenter's tools"@,
    {
        match self {
            ToolKind::CarpentersTools => "Carpenter's tools",
        }
    }

    /// What this tool turns neighbouring production into: carpenter's tools
    /// turn timber into planks.
    pub fn specialization(self) -> (s: Specialization)
        ensures
            s == (Specialization { input: UniformResource::Timber, output: UniformResource::Plank }),
    {
        match self {
            ToolKind::CarpentersTools => Specialization {
                input: UniformResource::Timber,
                output: UniformResource::Plank,
            },
        }
    }
}

/// The broad category of a unique resource.
#[derive(Clone, Copy, PartialEq, Eq, Debug, Structural)]
pub enum UniqueResourceKind {
    Book,
    Rug,
    Tool,
}

/// What a rack is dedicated to holding; defaults to tools.
#[derive(Clone, Copy, PartialEq, Eq, Debug, Structural)]
pub enum RackContents {
    Tools,
    Rugs,
}

impl Default for RackContents {
    fn default() -> (r: Self)
        ensures
            r == RackContents::Tools,
    {
        RackContents::Tools
    }
}

/// Which kind of storage a piece of furniture provides.
#[derive(Clone, Copy, PartialEq, Eq, Debug, Hash, Structural)]
pub enum StorageKind {
    Bulk,
    Rack,
    Book,
}

impl UniqueResourceKind {
    pub fn label(self) -> (s: &'static str)
        ensures
            s@ == (match self {
                UniqueResourceKind::Book => "Book"@,
                UniqueResourceKind::Rug => "Rug"@,
                UniqueResourceKind::Tool => "Tool"@,
            }),
    {
        match self {
            UniqueResourceKind::Book => "Book",
            UniqueResourceKind::Rug => "Rug",
            UniqueResourceKind::Tool => "Tool",
        }
    }
}

impl RackContents {
    pub fn label(self) -> (s: &'static str)
        ensures
            s@ == (match self {
                RackContents::Tools => "Tools"@,
                RackContents::Rugs => "Rugs"@,
            }),
    {
        match self {
            RackContents::Tools => "Tools",
            RackContents::Rugs => "Rugs",
        }
    }
}

/// How good the bookkeeping is: at most `digits` significant digits are kept,
/// and nothing above `max` is ever reported.
#[derive(Clone, Copy, Debug, PartialEq, Eq, Structural)]
pub struct Approximation {
    pub digits: u8,
    pub max: u16,
}

/// How a reported number relates to the true one.
#[derive(Clone, Copy, Debug, PartialEq, Eq, Structural)]
pub enum Precision {
    /// The reported number is the true one.
    Exact,
    /// Significant digits were dropped.
    Approximate,
    /// The true number exceeded the cap.
    Conservative,
}

pub open spec fn pow10(d: nat) -> nat
    decreases d,
{
    if d == 0 {
        1
    } else {
        10 * pow10((d - 1) as nat)
    }
}

/// `n` with its trailing digits zeroed until what remains of it is below
/// `limit`: dividing by ten until the quotient fits, then multiplying back.
pub open spec fn truncate_digits(n: nat, limit: nat) -> nat
    recommends
        limit >= 1,
    decreases n,
{
    if n < limit || limit == 0 {
        n
    } else {
        10 * truncate_digits(n / 10, limit)
    }
}

/// The reported value of `orig`: capped at `max`, then cut to `digits`
/// significant digits.
pub open spec fn rounded_value(orig: nat, approx: Approximation) -> nat {
    let capped = if orig > approx.max { approx.max as nat } else { orig };
    truncate_digits(capped, pow10(approx.digits as nat))
}

pub open spec fn rounding_precision(orig: nat, approx: Approximation) -> Precision {
    if rounded_value(orig, approx) == orig {
        Precision::Exact
    } else if orig > approx.max {
        Precision::Conservative
    } else {
        Precision::Approximate
    }
}

proof fn lemma_pow10_monotone(a: nat, b: nat)
    requires
        a <= b,
    ensures
        1 <= pow10(a) <= pow10(b),
    decreases b,
{
    if b == 0 {
    } else if a == b {
        lemma_pow10_monotone((b - 1) as nat, (b - 1) as nat);
    } else {
        lemma_pow10_monotone(a, (b - 1) as nat);
    }
}

proof fn lemma_truncate_bounded(n: nat, limit: nat)
    requires
        limit >= 1,
    ensures
        truncate_digits(n, limit) <= n,
    decreases n,
{
    if n >= limit {
        lemma_truncate_bounded(n / 10, limit);
    }
}

/// The truncation loop's state `(d, z)` stands for `d * z`: finishing the
/// truncation of `d` and scaling by `z` gives the truncation of the start.
proof fn lemma_truncate_step(d: nat, limit: nat)
    requires
        limit >= 1,
        d >= limit,
    ensures
        truncate_digits(d, limit) == 10 * truncate_digits(d / 10, limit),
{
}

/// Simulates bookkeeping limitations: returns the value the books would show
/// for `orig` and how it relates to the truth.
pub fn round(orig: u32, approx: Approximation) -> (res: (u32, Precision))
    requires
        approx.digits <= 9,
    ensures
        res.0 == rounded_value(orig as nat, approx),
        res.1 == rounding_precision(orig as nat, approx),
{
    let max = approx.max as u32;
    let capped = orig > max;
    let res = if orig < max { orig } else { max };

    let mut too_long: u32 = 1;
    let mut k: u8 = 0;
    while k < approx.digits
        invariant
            k <= approx.digits <= 9,
            too_long as nat == pow10(k as nat),
        decreases approx.digits - k,
    {
        proof {
            lemma_pow10_monotone((k + 1) as nat, 9);
            reveal_with_fuel(pow10, 10);
            assert(pow10(9) == 1_000_000_000);
        }
        too_long = too_long * 10;
        k = k + 1;
    }
    proof {
        lemma_pow10_monotone(0, k as nat);
    }

    let ghost limit = too_long as nat;
    let mut res_digits: u32 = res;
    let mut res_zeroes: u32 = 1;
    while res_digits >= too_long
        invariant
            limit == too_long,
            limit >= 1,
            res <= 65535,
            res_zeroes * res_digits <= res,
            1 <= res_zeroes <= 655_350,
            res_zeroes * truncate_digits(res_digits as nat, limit) == truncate_digits(res as nat, limit),
        decreases res_digits,
    {
        proof {
            lemma_truncate_step(res_digits as nat, limit);
            assert(res_zeroes * res_digits >= res_zeroes * 1) by (nonlinear_arith)
                requires res_digits >= 1, res_zeroes >= 1;
            assert(res_zeroes * 10 * (res_digits / 10) <= res_zeroes * res_digits) by (nonlinear_arith)
                requires res_zeroes >= 1;
            assert(res_zeroes * truncate_digits(res_digits as nat, limit)
                == (res_zeroes * 10) * truncate_digits((res_digits / 10) as nat, limit)) by (nonlinear_arith)
                requires truncate_digits(res_digits as nat, limit)
                    == 10 * truncate_digits((res_digits / 10) as nat, limit);
        }
        res_digits = res_digits / 10;
        res_zeroes = res_zeroes * 10;
    }
    proof {
        assert(truncate_digits(res_digits as nat, limit) == res_digits);
    }
    proof {
        assert(res_digits * res_zeroes == res_zeroes * res_digits) by (nonlinear_arith);
    }
    let res = res_digits * res_zeroes;

    let precision = if res == orig {
        Precision::Exact
    } else if capped {
        Precision::Conservative
    } else {
        Precision::Approximate
    };

    (res, precision)
}


/// The colour of a rug, as 8-bit red, green and blue channels.
#[derive(Clone, Copy, PartialEq, Eq, Debug, Structural)]
pub struct RugColor {
    pub r: u8,
    pub g: u8,
    pub b: u8,
}

/// A resource of which every unit is distinct.
#[derive(Clone, PartialEq, Eq, Debug)]
pub enum UniqueResource {
    Book { title: String },
    Rug { color: RugColor },
    Tool(ToolKind),
}

/// A unique resource as a value: a book by the characters of its title.
pub enum UniqueResourceView {
    Book(Seq<char>),
    Rug(RugColor),
    Tool(ToolKind),
}

impl View for UniqueResource {
    type V = UniqueResourceView;

    open spec fn view(&self) -> UniqueResourceView {
        match self {
            UniqueResource::Book { title } => UniqueResourceView::Book(title@),
            UniqueResource::Rug { color } => UniqueResourceView::Rug(*color),
            UniqueResource::Tool(k) => UniqueResourceView::Tool(*k),
        }
    }
}

pub open spec fn spec_kind(r: UniqueResource) -> UniqueResourceKind {
    match r {
        UniqueResource::Book { .. } => UniqueResourceKind::Book,
        UniqueResource::Rug { .. } => UniqueResourceKind::Rug,
        UniqueResource::Tool(_) => UniqueResourceKind::Tool,
    }
}

/// Storage volume of a unique resource, in hundredths of a storage unit (a
/// unit of a uniform resource takes one whole unit): a book 5, a rug 100, a
/// tool 50.
pub open spec fn spec_volume(r: UniqueResource) -> nat {
    match r {
        UniqueResource::Book { .. } => 5,
        UniqueResource::Rug { .. } => 100,
        UniqueResource::Tool(_) => 50,
    }
}

/// The display text of a rug's colour, e.g. "Rug (10, 20, 30)".
pub open spec fn rug_label(c: RugColor) -> Seq<char> {
    "Rug ("@ + decimal(c.r as nat) + ", "@ + decimal(c.g as nat) + ", "@ + decimal(c.b as nat) + ")"@
}

impl UniqueResourceKind {
    /// Whether `res` is of this kind.
    pub fn matches(self, res: &UniqueResource) -> (b: bool)
        ensures
            b == (spec_kind(*res) == self),
    {
        res.kind() == self
    }
}

impl UniqueResource {
    pub fn kind(&self) -> (k: UniqueResourceKind)
        ensures
            k == spec_kind(*self),
    {
        match self {
            UniqueResource::Book { .. } => UniqueResourceKind::Book,
            UniqueResource::Rug { .. } => UniqueResourceKind::Rug,
            UniqueResource::Tool(_) => UniqueResourceKind::Tool,
        }
    }

    /// A short description of this particular resource, for UI lists.
    pub fn label(&self) -> (s: String)
        ensures
            s@ == (match *self {
                UniqueResource::Book { title } => "Book: "@ + title@,
                UniqueResource::Rug { color } => rug_label(color),
                UniqueResource::Tool(k) => "Carpenter's tools"@,
            }),
    {
        let mut s = String::new();
        match self {
            UniqueResource::Book { title } => {
                push_str(&mut s, "Book: ");
                push_str(&mut s, title.as_str());
            },
            UniqueResource::Rug { color } => {
                push_str(&mut s, "Rug (");
                push_decimal(&mut s, color.r as u64);
                push_str(&mut s, ", ");
                push_decimal(&mut s, color.g as u64);
                push_str(&mut s, ", ");
                push_decimal(&mut s, color.b as u64);
                push_str(&mut s, ")");
            },
            UniqueResource::Tool(kind) => {
                push_str(&mut s, kind.label());
            },
        }
        assert(s@ =~= (match *self {
            UniqueResource::Book { title } => "Book: "@ + title@,
            UniqueResource::Rug { color } => rug_label(color),
            UniqueResource::Tool(k) => "Carpenter's tools"@,
        }));
        s
    }

    /// Storage volume in hundredths of a storage unit.
    pub fn volume(&self) -> (v: u32)
        ensures
            v == spec_volume(*self),
    {
        match self {
            UniqueResource::Book { .. } => 5,
            UniqueResource::Rug { .. } => 100,
            UniqueResource::Tool(_) => 50,
        }
    }

    /// Whether two unique resources are the same item: same kind, and the same
    /// title, colour or tool kind.
    pub fn same_as(&self, other: &UniqueResource) -> (b: bool)
        ensures
            b == (self@ == other@),
    {
        match (self, other) {
            (UniqueResource::Book { title: a }, UniqueResource::Book { title: b }) => *a == *b,
            (UniqueResource::Rug { color: a }, UniqueResource::Rug { color: b }) => *a == *b,
            (UniqueResource::Tool(a), UniqueResource::Tool(b)) => *a == *b,
            _ => false,
        }
    }
}


/// One entry of an inventory: a quantity of a uniform resource, or the
/// collection of unique items.
pub enum InventoryEntry {
    Uniform(UniformResource, u32),
    Collection(Vec<UniqueResource>),
}

/// Per-kind totals of uniform resources, in entry order.
pub open spec fn totals_of(e: Seq<InventoryEntry>) -> Seq<(UniformResource, u32)>
    decreases e.len(),
{
    if e.len() == 0 {
        seq![]
    } else {
        let rest = totals_of(e.drop_last());
        match e.last() {
            InventoryEntry::Uniform(r, q) => rest.push((r, q)),
            InventoryEntry::Collection(_) => rest,
        }
    }
}

/// Every unique item, collection by collection, in order.
pub open spec fn items_of(e: Seq<InventoryEntry>) -> Seq<UniqueResource>
    decreases e.len(),
{
    if e.len() == 0 {
        seq![]
    } else {
        let rest = items_of(e.drop_last());
        match e.last() {
            InventoryEntry::Uniform(_, _) => rest,
            InventoryEntry::Collection(v) => rest + v@,
        }
    }
}

pub open spec fn is_uniform_of(x: InventoryEntry, r: UniformResource) -> bool {
    x matches InventoryEntry::Uniform(y, _) && y == r
}

/// `i` is the first entry holding `r`.
pub open spec fn first_uniform(e: Seq<InventoryEntry>, r: UniformResource, i: int) -> bool {
    &&& 0 <= i < e.len()
    &&& is_uniform_of(e[i], r)
    &&& forall|j: int| 0 <= j < i ==> !is_uniform_of(#[trigger] e[j], r)
}

pub open spec fn no_uniform(e: Seq<InventoryEntry>, r: UniformResource) -> bool {
    forall|j: int| 0 <= j < e.len() ==> !is_uniform_of(#[trigger] e[j], r)
}

/// `i` is the first collection entry.
pub open spec fn first_collection(e: Seq<InventoryEntry>, i: int) -> bool {
    &&& 0 <= i < e.len()
    &&& e[i] is Collection
    &&& forall|j: int| 0 <= j < i ==> !(#[trigger] e[j] is Collection)
}

pub open spec fn no_collection(e: Seq<InventoryEntry>) -> bool {
    forall|j: int| 0 <= j < e.len() ==> !(#[trigger] e[j] is Collection)
}

pub open spec fn entry_qty(x: InventoryEntry) -> u32 {
    match x {
        InventoryEntry::Uniform(_, q) => q,
        InventoryEntry::Collection(_) => 0,
    }
}

pub open spec fn entry_items(x: InventoryEntry) -> Seq<UniqueResource> {
    match x {
        InventoryEntry::Uniform(_, _) => seq![],
        InventoryEntry::Collection(v) => v@,
    }
}

/// The capacity recorded for `kind`: the last pair naming it, or zero.
pub open spec fn capacity_in(caps: Seq<(StorageKind, u64)>, kind: StorageKind) -> nat
    decreases caps.len(),
{
    if caps.len() == 0 {
        0
    } else if caps.last().0 == kind {
        caps.last().1 as nat
    } else {
        capacity_in(caps.drop_last(), kind)
    }
}

/// Sum of the quantities of uniform totals.
pub open spec fn qty_sum(t: Seq<(UniformResource, u32)>) -> nat
    decreases t.len(),
{
    if t.len() == 0 {
        0
    } else {
        qty_sum(t.drop_last()) + t.last().1 as nat
    }
}

/// Whether an item lives in `kind`'s storage pool.
pub open spec fn stored_in(r: UniqueResource, kind: StorageKind) -> bool {
    match kind {
        StorageKind::Bulk => false,
        StorageKind::Rack => r is Tool || r is Rug,
        StorageKind::Book => r is Book,
    }
}

/// Total volume (hundredths) of the items that live in `kind`'s pool.
pub open spec fn items_volume(items: Seq<UniqueResource>, kind: StorageKind) -> nat
    decreases items.len(),
{
    if items.len() == 0 {
        0
    } else {
        items_volume(items.drop_last(), kind) + if stored_in(items.last(), kind) {
            spec_volume(items.last())
        } else {
            0
        }
    }
}

/// Number of items satisfying `p`.
pub open spec fn count_items(items: Seq<UniqueResource>, p: spec_fn(UniqueResource) -> bool) -> nat
    decreases items.len(),
{
    if items.len() == 0 {
        0
    } else {
        count_items(items.drop_last(), p) + if p(items.last()) { 1nat } else { 0 }
    }
}

proof fn lemma_count_items_ext(
    items: Seq<UniqueResource>,
    p: spec_fn(UniqueResource) -> bool,
    q: spec_fn(UniqueResource) -> bool,
)
    requires
        forall|r: UniqueResource| #[trigger] p(r) == q(r),
    ensures
        count_items(items, p) == count_items(items, q),
    decreases items.len(),
{
    if items.len() > 0 {
        lemma_count_items_ext(items.drop_last(), p, q);
    }
}

/// Index of the first item that is the same as `item`.
fn find_item(items: &Vec<UniqueResource>, item: &UniqueResource) -> (r: Option<usize>)
    ensures
        r matches Some(p) ==> p < items@.len() && items@[p as int]@ == item@
            && forall|q: int| 0 <= q < p ==> items@[q]@ != item@,
        r is None ==> forall|q: int| 0 <= q < items@.len() ==> items@[q]@ != item@,
{
    let mut p: usize = 0;
    while p < items.len()
        invariant
            p <= items@.len(),
            forall|q: int| 0 <= q < p ==> items@[q]@ != item@,
        decreases items@.len() - p,
    {
        if items[p].same_as(item) {
            return Some(p);
        }
        p = p + 1;
    }
    None
}

proof fn lemma_first_collection_unique(e: Seq<InventoryEntry>, i: int)
    requires
        first_collection(e, i),
    ensures
        forall|k: int| first_collection(e, k) ==> k == i,
{
    assert forall|k: int| first_collection(e, k) implies k == i by {
        if k < i {
            assert(!(e[k] is Collection));
        } else if k > i {
            assert(!(e[i] is Collection));
        }
    }
}

/// A place's stock: uniform quantities and unique items, plus a capacity per
/// storage kind. Capacities and volumes are in hundredths of a storage unit.
pub struct Inventory {
    contents: Vec<InventoryEntry>,
    capacities: Vec<(StorageKind, u64)>,
}

impl Inventory {
    pub closed spec fn entries(&self) -> Seq<InventoryEntry> {
        self.contents@
    }

    pub closed spec fn caps(&self) -> Seq<(StorageKind, u64)> {
        self.capacities@
    }

    /// Uniform totals, in the order resources were first added.
    pub open spec fn spec_totals(&self) -> Seq<(UniformResource, u32)> {
        totals_of(self.entries())
    }

    /// Unique items, in the order they were added.
    pub open spec fn spec_items(&self) -> Seq<UniqueResource> {
        items_of(self.entries())
    }

    /// Volume (hundredths) occupied within `kind`'s own pool: all uniform
    /// units for `Bulk`, tools and rugs for `Rack`, books for `Book`.
    pub open spec fn spec_volume_of_kind(&self, kind: StorageKind) -> nat {
        match kind {
            StorageKind::Bulk => 100 * qty_sum(self.spec_totals()),
            _ => items_volume(self.spec_items(), kind),
        }
    }

    /// An empty inventory with the given capacities (the last pair naming a
    /// kind wins).
    pub fn new(capacities: Vec<(StorageKind, u64)>) -> (inv: Self)
        ensures
            inv.entries() == Seq::<InventoryEntry>::empty(),
            inv.caps() == capacities@,
    {
        Inventory { contents: Vec::new(), capacities }
    }

    fn capacity_for(&self, kind: StorageKind) -> (c: u64)
        ensures
            c == capacity_in(self.caps(), kind),
    {
        let mut i = self.capacities.len();
        proof {
            assert(self.capacities@.take(i as int) =~= self.capacities@);
        }
        while i > 0
            invariant
                i <= self.capacities@.len(),
                capacity_in(self.capacities@, kind) == capacity_in(self.capacities@.take(i as int), kind),
            decreases i,
        {
            proof {
                assert(self.capacities@.take(i as int).drop_last() =~= self.capacities@.take(i - 1));
            }
            if self.capacities[i - 1].0 == kind {
                return self.capacities[i - 1].1;
            }
            i = i - 1;
        }
        proof {
            assert(self.capacities@.take(0) =~= Seq::<(StorageKind, u64)>::empty());
        }
        0
    }

    /// Per-kind totals of uniform resources, in entry order.
    pub fn uniform_totals(&self) -> (t: Vec<(UniformResource, u32)>)
        ensures
            t@ == self.spec_totals(),
    {
        let mut out: Vec<(UniformResource, u32)> = Vec::new();
        for i in 0..self.contents.len()
            invariant
                out@ == totals_of(self.contents@.take(i as int)),
        {
            proof {
                assert(self.contents@.take(i + 1).drop_last() =~= self.contents@.take(i as int));
            }
            match &self.contents[i] {
                InventoryEntry::Uniform(r, q) => out.push((*r, *q)),
                InventoryEntry::Collection(_) => {},
            }
        }
        proof {
            assert(self.contents@.take(self.contents@.len() as int) =~= self.contents@);
        }
        out
    }

    /// Every unique item, in order.
    pub fn unique_items(&self) -> (v: Vec<&UniqueResource>)
        ensures
            v@.len() == self.spec_items().len(),
            forall|i: int| 0 <= i < v@.len() ==> *v@[i] == self.spec_items()[i],
    {
        let mut out: Vec<&UniqueResource> = Vec::new();
        for i in 0..self.contents.len()
            invariant
                out@.len() == items_of(self.contents@.take(i as int)).len(),
                forall|k: int| 0 <= k < out@.len() ==> *out@[k] == items_of(self.contents@.take(i as int))[k],
        {
            proof {
                assert(self.contents@.take(i + 1).drop_last() =~= self.contents@.take(i as int));
            }
            match &self.contents[i] {
                InventoryEntry::Uniform(_, _) => {},
                InventoryEntry::Collection(items) => {
                    let ghost before = out@;
                    for j in 0..items.len()
                        invariant
                            out@.len() == before.len() + j,
                            before.len() == items_of(self.contents@.take(i as int)).len(),
                            forall|k: int| 0 <= k < before.len() ==> *before[k] == items_of(self.contents@.take(i as int))[k],
                            forall|k: int| 0 <= k < before.len() ==> out@[k] == before[k],
                            forall|k: int| 0 <= k < j ==> *out@[before.len() + k] == items@[k],
                    {
                        out.push(&items[j]);
                    }
                    proof {
                        let pre = items_of(self.contents@.take(i as int));
                        assert(items_of(self.contents@.take(i + 1)) == pre + items@);
                        assert forall|k: int| 0 <= k < out@.len() implies
                            *out@[k] == items_of(self.contents@.take(i + 1))[k] by {
                            if k >= before.len() {
                                assert(*out@[before.len() + (k - before.len())] == items@[k - before.len()]);
                                assert((pre + items@)[k] == items@[k - before.len()]);
                            } else {
                                assert(out@[k] == before[k]);
                                assert(*before[k] == pre[k]);
                                assert((pre + items@)[k] == pre[k]);
                            }
                        }
                    }
                },
            }
        }
        proof {
            assert(self.contents@.take(self.contents@.len() as int) =~= self.contents@);
        }
        out
    }

    /// Volume (hundredths) occupied within `kind`'s own pool.
    fn volume_of_kind(&self, kind: StorageKind) -> (v: u128)
        ensures
            v == self.spec_volume_of_kind(kind),
    {
        match kind {
            StorageKind::Bulk => {
                let totals = self.uniform_totals();
                let mut sum: u128 = 0;
                for i in 0..totals.len()
                    invariant
                        totals@ == self.spec_totals(),
                        sum == qty_sum(totals@.take(i as int)),
                        sum <= i * 0xffff_ffff,
                {
                    proof {
                        assert(totals@.take(i + 1).drop_last() =~= totals@.take(i as int));
                    }
                    sum = sum + totals[i].1 as u128;
                }
                proof {
                    assert(totals@.take(totals@.len() as int) =~= totals@);
                }
                100 * sum
            },
            _ => {
                let items = self.unique_items();
                let mut sum: u128 = 0;
                for i in 0..items.len()
                    invariant
                        items@.len() == self.spec_items().len(),
                        forall|k: int| 0 <= k < items@.len() ==> *items@[k] == self.spec_items()[k],
                        sum == items_volume(self.spec_items().take(i as int), kind),
                        sum <= i * 100,
                {
                    proof {
                        assert(self.spec_items().take(i + 1).drop_last() =~= self.spec_items().take(i as int));
                    }
                    let it = items[i];
                    let counts = match kind {
                        StorageKind::Bulk => false,
                        StorageKind::Rack => matches!(it, UniqueResource::Tool(_) | UniqueResource::Rug { .. }),
                        StorageKind::Book => matches!(it, UniqueResource::Book { .. }),
                    };
                    if counts {
                        sum = sum + it.volume() as u128;
                    }
                }
                proof {
                    assert(self.spec_items().take(items@.len() as int) =~= self.spec_items());
                }
                sum
            },
        }
    }

    /// Adds a quantity of a uniform resource, merging (saturating) into the
    /// first entry of the same resource if there is one.
    pub fn add_uniform(&mut self, res: UniformResource, qty: u32)
        ensures
            final(self).caps() == old(self).caps(),
            forall|i: int| first_uniform(old(self).entries(), res, i) ==>
                final(self).entries() == old(self).entries().update(i, InventoryEntry::Uniform(res,
                    if entry_qty(old(self).entries()[i]) + qty > u32::MAX { u32::MAX }
                    else { (entry_qty(old(self).entries()[i]) + qty) as u32 })),
            no_uniform(old(self).entries(), res) ==>
                final(self).entries() == old(self).entries().push(InventoryEntry::Uniform(res, qty)),
    {
        let mut i: usize = 0;
        while i < self.contents.len()
            invariant
                i <= self.contents@.len(),
                self.contents@ == old(self).contents@,
                self.capacities@ == old(self).capacities@,
                forall|j: int| 0 <= j < i ==> !is_uniform_of(#[trigger] self.contents@[j], res),
            decreases self.contents@.len() - i,
        {
            let found = match &self.contents[i] {
                InventoryEntry::Uniform(existing, existing_qty) => if *existing == res {
                    Some(*existing_qty)
                } else {
                    None
                },
                InventoryEntry::Collection(_) => None,
            };
            if let Some(q) = found {
                self.contents.set(i, InventoryEntry::Uniform(res, q.saturating_add(qty)));
                return;
            }
            i = i + 1;
        }
        self.contents.push(InventoryEntry::Uniform(res, qty));
    }

    /// Subtracts (saturating at zero) from the first entry of `res`; does
    /// nothing if there is none.
    pub fn subtract_uniform(&mut self, res: UniformResource, qty: u32)
        ensures
            final(self).caps() == old(self).caps(),
            forall|i: int| first_uniform(old(self).entries(), res, i) ==>
                final(self).entries() == old(self).entries().update(i, InventoryEntry::Uniform(res,
                    if entry_qty(old(self).entries()[i]) >= qty {
                        (entry_qty(old(self).entries()[i]) - qty) as u32
                    } else {
                        0
                    })),
            no_uniform(old(self).entries(), res) ==> final(self).entries() == old(self).entries(),
    {
        let mut i: usize = 0;
        while i < self.contents.len()
            invariant
                i <= self.contents@.len(),
                self.contents@ == old(self).contents@,
                self.capacities@ == old(self).capacities@,
                forall|j: int| 0 <= j < i ==> !is_uniform_of(#[trigger] self.contents@[j], res),
            decreases self.contents@.len() - i,
        {
            let found = match &self.contents[i] {
                InventoryEntry::Uniform(existing, existing_qty) => if *existing == res {
                    Some(*existing_qty)
                } else {
                    None
                },
                InventoryEntry::Collection(_) => None,
            };
            if let Some(q) = found {
                self.contents.set(i, InventoryEntry::Uniform(res, q.saturating_sub(qty)));
                return;
            }
            i = i + 1;
        }
    }

    /// Index of the first collection entry, if any.
    fn collection_index(&self) -> (r: Option<usize>)
        ensures
            r matches Some(i) ==> first_collection(self.entries(), i as int),
            r is None ==> no_collection(self.entries()),
    {
        let mut i: usize = 0;
        while i < self.contents.len()
            invariant
                i <= self.contents@.len(),
                forall|j: int| 0 <= j < i ==> !(#[trigger] self.contents@[j] is Collection),
            decreases self.contents@.len() - i,
        {
            if matches!(&self.contents[i], InventoryEntry::Collection(_)) {
                return Some(i);
            }
            i = i + 1;
        }
        None
    }

    /// Adds a unique item to the end of the first collection, or starts a
    /// collection with it.
    pub fn add_unique(&mut self, item: UniqueResource)
        ensures
            final(self).caps() == old(self).caps(),
            final(self).entries().len() == old(self).entries().len() + if no_collection(old(self).entries()) { 1int } else { 0 },
            forall|i: int| first_collection(old(self).entries(), i) ==>
                final(self).entries().len() == old(self).entries().len()
                && (forall|j: int| 0 <= j < old(self).entries().len() && j != i ==>
                    final(self).entries()[j] == old(self).entries()[j])
                && final(self).entries()[i] is Collection
                && entry_items(final(self).entries()[i]) == entry_items(old(self).entries()[i]).push(item),
            no_collection(old(self).entries()) ==>
                final(self).entries().drop_last() == old(self).entries()
                && final(self).entries().last() is Collection
                && entry_items(final(self).entries().last()) == seq![item],
    {
        match self.collection_index() {
            Some(i) => {
                let entry = self.contents.remove(i);
                match entry {
                    InventoryEntry::Collection(mut items) => {
                        items.push(item);
                        self.contents.insert(i, InventoryEntry::Collection(items));
                    },
                    InventoryEntry::Uniform(r, q) => {
                        self.contents.insert(i, InventoryEntry::Uniform(r, q));
                    },
                }
                proof {
                    assert forall|j: int| 0 <= j < old(self).contents@.len() && j != i implies
                        self.contents@[j] == old(self).contents@[j] by {
                    }
                }
            },
            None => {
                let v = vec![item];
                self.contents.push(InventoryEntry::Collection(v));
                proof {
                    assert(self.contents@.drop_last() =~= old(self).contents@);
                }
            },
        }
    }

    /// Removes the first item of the first collection that is the same as
    /// `item`; returns whether one was removed.
    pub fn remove_unique(&mut self, item: &UniqueResource) -> (removed: bool)
        ensures
            final(self).caps() == old(self).caps(),
            !removed ==> final(self).entries() == old(self).entries(),
            removed <==> exists|i: int, p: int| first_collection(old(self).entries(), i)
                && 0 <= p < entry_items(old(self).entries()[i]).len()
                && entry_items(old(self).entries()[i])[p]@ == item@,
            forall|i: int, p: int| first_collection(old(self).entries(), i)
                && 0 <= p < entry_items(old(self).entries()[i]).len()
                && entry_items(old(self).entries()[i])[p]@ == item@
                && (forall|q: int| 0 <= q < p ==> entry_items(old(self).entries()[i])[q]@ != item@)
                ==> final(self).entries().len() == old(self).entries().len()
                && (forall|j: int| 0 <= j < old(self).entries().len() && j != i ==>
                    final(self).entries()[j] == old(self).entries()[j])
                && final(self).entries()[i] is Collection
                && entry_items(final(self).entries()[i]) == entry_items(old(self).entries()[i]).remove(p),
    {
        let ci = match self.collection_index() {
            Some(ci) => ci,
            None => return false,
        };
        let pos = match &self.contents[ci] {
            InventoryEntry::Collection(items) => find_item(items, item),
            InventoryEntry::Uniform(_, _) => None,
        };
        proof {
            lemma_first_collection_unique(old(self).contents@, ci as int);
        }
        let p = match pos {
            Some(p) => p,
            None => {
                return false;
            },
        };
        let entry = self.contents.remove(ci);
        match entry {
            InventoryEntry::Collection(mut items) => {
                items.remove(p);
                self.contents.insert(ci, InventoryEntry::Collection(items));
            },
            InventoryEntry::Uniform(r, q) => {
                self.contents.insert(ci, InventoryEntry::Uniform(r, q));
            },
        }
        proof {
            assert forall|j: int| 0 <= j < old(self).contents@.len() && j != ci implies
                self.contents@[j] == old(self).contents@[j] by {
            }
            let e = old(self).contents@;
            assert(first_collection(e, ci as int));
            assert(0 <= p < entry_items(e[ci as int]).len() && entry_items(e[ci as int])[p as int]@ == item@);
        }
        true
    }

    /// Number of items that are tools.
    pub fn tool_count(&self) -> (n: usize)
        ensures
            n == count_items(self.spec_items(), |r: UniqueResource| r is Tool),
    {
        self.count_kind(UniqueResourceKind::Tool)
    }

    /// Number of items that are books.
    pub fn book_count(&self) -> (n: usize)
        ensures
            n == count_items(self.spec_items(), |r: UniqueResource| r is Book),
    {
        self.count_kind(UniqueResourceKind::Book)
    }

    /// Number of items that are rugs.
    pub fn rug_count(&self) -> (n: usize)
        ensures
            n == count_items(self.spec_items(), |r: UniqueResource| r is Rug),
    {
        self.count_kind(UniqueResourceKind::Rug)
    }

    fn count_kind(&self, kind: UniqueResourceKind) -> (n: usize)
        ensures
            n == count_items(self.spec_items(), |r: UniqueResource| spec_kind(r) == kind),
            kind is Tool ==> n == count_items(self.spec_items(), |r: UniqueResource| r is Tool),
            kind is Book ==> n == count_items(self.spec_items(), |r: UniqueResource| r is Book),
            kind is Rug ==> n == count_items(self.spec_items(), |r: UniqueResource| r is Rug),
    {
        let items = self.unique_items();
        let ghost all = self.spec_items();
        let ghost p = |r: UniqueResource| spec_kind(r) == kind;
        let mut n: usize = 0;
        for i in 0..items.len()
            invariant
                items@.len() == all.len(),
                forall|k: int| 0 <= k < items@.len() ==> *items@[k] == all[k],
                p == (|r: UniqueResource| spec_kind(r) == kind),
                n == count_items(all.take(i as int), p),
                n <= i,
        {
            proof {
                assert(all.take(i + 1).drop_last() =~= all.take(i as int));
            }
            if items[i].kind() == kind {
                n = n + 1;
            }
        }
        proof {
            assert(all.take(items@.len() as int) =~= all);
            if kind is Tool {
                lemma_count_items_ext(all, p, |r: UniqueResource| r is Tool);
            }
            if kind is Book {
                lemma_count_items_ext(all, p, |r: UniqueResource| r is Book);
            }
            if kind is Rug {
                lemma_count_items_ext(all, p, |r: UniqueResource| r is Rug);
            }
        }
        n
    }

    /// Number of tools of a specific kind.
    pub fn tool_count_of(&self, kind: ToolKind) -> (n: usize)
        ensures
            n == count_items(self.spec_items(), |r: UniqueResource| r == UniqueResource::Tool(kind)),
    {
        let items = self.unique_items();
        let ghost all = self.spec_items();
        let ghost p = |r: UniqueResource| r == UniqueResource::Tool(kind);
        let mut n: usize = 0;
        for i in 0..items.len()
            invariant
                items@.len() == all.len(),
                forall|k: int| 0 <= k < items@.len() ==> *items@[k] == all[k],
                p == (|r: UniqueResource| r == UniqueResource::Tool(kind)),
                n == count_items(all.take(i as int), p),
                n <= i,
        {
            proof {
                assert(all.take(i + 1).drop_last() =~= all.take(i as int));
            }
            let hit = match items[i] {
                UniqueResource::Tool(k) => *k == kind,
                _ => false,
            };
            if hit {
                n = n + 1;
            }
        }
        proof {
            assert(all.take(items@.len() as int) =~= all);
        }
        n
    }

    /// Remaining volume (hundredths) this inventory can accept for `kind`,
    /// independent of how full any other kind's pool is.
    pub fn remaining_capacity(&self, kind: StorageKind) -> (r: u64)
        ensures
            r == if capacity_in(self.caps(), kind) >= self.spec_volume_of_kind(kind) {
                capacity_in(self.caps(), kind) - self.spec_volume_of_kind(kind)
            } else {
                0
            },
    {
        let cap = self.capacity_for(kind);
        let used = self.volume_of_kind(kind);
        if (cap as u128) >= used {
            (cap as u128 - used) as u64
        } else {
            0
        }
    }
}


/// What became of one resource's leftover inflow: stored, or lost.
/// For every distributed resource `stored + lost` is what arrived.
#[derive(Clone, Copy, Debug, PartialEq, Eq, Structural)]
pub struct ResourceFlow {
    pub stored: u32,
    pub lost: u32,
}

impl Default for ResourceFlow {
    fn default() -> (f: Self)
        ensures
            f == (ResourceFlow { stored: 0, lost: 0 }),
    {
        ResourceFlow { stored: 0, lost: 0 }
    }
}

/// The value recorded for `r` in a list of pairs: the last pair naming it,
/// or zero.
pub open spec fn lookup_qty(m: Seq<(UniformResource, u32)>, r: UniformResource) -> nat
    decreases m.len(),
{
    if m.len() == 0 {
        0
    } else if m.last().0 == r {
        m.last().1 as nat
    } else {
        lookup_qty(m.drop_last(), r)
    }
}

/// Like `lookup_qty`, for capacities (hundredths of a storage unit).
pub open spec fn lookup_cap(m: Seq<(UniformResource, u64)>, r: UniformResource) -> nat
    decreases m.len(),
{
    if m.len() == 0 {
        0
    } else if m.last().0 == r {
        m.last().1 as nat
    } else {
        lookup_cap(m.drop_last(), r)
    }
}

/// `a` is more plentiful than `b`: more in storage, or as much in storage and
/// more known farm output, or tied on both and earlier in declaration order.
pub open spec fn more_plentiful(
    snapshot: Seq<(UniformResource, u32)>,
    farm: Seq<(UniformResource, u32)>,
    a: UniformResource,
    b: UniformResource,
) -> bool {
    let (sa, sb) = (lookup_qty(snapshot, a), lookup_qty(snapshot, b));
    let (fa, fb) = (lookup_qty(farm, a), lookup_qty(farm, b));
    sa > sb || (sa == sb && (fa > fb || (fa == fb && resource_rank(a) < resource_rank(b))))
}

pub open spec fn distinct_resources<T>(m: Seq<(UniformResource, T)>) -> bool {
    forall|i: int, j: int| 0 <= i < j < m.len() ==> m[i].0 != m[j].0
}

/// What `incoming[i]` could store on its own: its quantity, capped by its
/// own free capacity in whole units.
pub open spec fn own_storable(
    incoming: Seq<(UniformResource, u32)>,
    cap: Seq<(UniformResource, u64)>,
    i: int,
) -> nat {
    let q = incoming[i].1 as nat;
    let c = lookup_cap(cap, incoming[i].0) / 100;
    if q <= c { q } else { c }
}

/// Sum of `own_storable` over the first `n` incoming entries.
pub open spec fn storable_sum(
    incoming: Seq<(UniformResource, u32)>,
    cap: Seq<(UniformResource, u64)>,
    n: int,
) -> nat
    decreases n,
{
    if n <= 0 {
        0
    } else {
        storable_sum(incoming, cap, n - 1) + own_storable(incoming, cap, n - 1)
    }
}

/// Sum of the free capacities of the resources, among the first `n`
/// incoming, that actually arrived (quantity above zero).
pub open spec fn pool_capacity(
    incoming: Seq<(UniformResource, u32)>,
    cap: Seq<(UniformResource, u64)>,
    n: int,
) -> nat
    decreases n,
{
    if n <= 0 {
        0
    } else {
        pool_capacity(incoming, cap, n - 1) + if incoming[n - 1].1 > 0 {
            lookup_cap(cap, incoming[n - 1].0)
        } else {
            0
        }
    }
}

/// Sum of `own_storable` over those of the first `n` incoming entries that
/// are more plentiful than `r`.
pub open spec fn storable_ahead_of(
    incoming: Seq<(UniformResource, u32)>,
    cap: Seq<(UniformResource, u64)>,
    snapshot: Seq<(UniformResource, u32)>,
    farm: Seq<(UniformResource, u32)>,
    r: UniformResource,
    n: int,
) -> nat
    decreases n,
{
    if n <= 0 {
        0
    } else {
        storable_ahead_of(incoming, cap, snapshot, farm, r, n - 1) + if more_plentiful(
            snapshot,
            farm,
            incoming[n - 1].0,
            r,
        ) {
            own_storable(incoming, cap, n - 1)
        } else {
            0
        }
    }
}

/// The combined number of whole units that may be stored: the sum of the
/// arriving resources' own capacities, capped by the overall free capacity.
pub open spec fn storage_budget(
    incoming: Seq<(UniformResource, u32)>,
    cap: Seq<(UniformResource, u64)>,
    overall: nat,
) -> nat {
    let pool = pool_capacity(incoming, cap, incoming.len() as int);
    (if pool <= overall { pool } else { overall }) / 100
}

/// How much `incoming[i]` ends up storing. The excess of what could be
/// stored over the budget is cut from the most plentiful resources first:
/// `incoming[i]` loses whatever excess remains after every more plentiful
/// resource has given up all it could store.
pub open spec fn distributed_stored(
    incoming: Seq<(UniformResource, u32)>,
    snapshot: Seq<(UniformResource, u32)>,
    cap: Seq<(UniformResource, u64)>,
    overall: nat,
    farm: Seq<(UniformResource, u32)>,
    i: int,
) -> nat {
    let total = storable_sum(incoming, cap, incoming.len() as int);
    let budget = storage_budget(incoming, cap, overall);
    let excess: nat = if total > budget { (total - budget) as nat } else { 0 };
    let ahead = storable_ahead_of(incoming, cap, snapshot, farm, incoming[i].0, incoming.len() as int);
    let left: nat = if excess > ahead { (excess - ahead) as nat } else { 0 };
    let own = own_storable(incoming, cap, i);
    if own <= left { 0 } else { (own - left) as nat }
}

/// `flow` is what `distribute_incoming_resources` owes for `incoming[i]`.
pub open spec fn flow_matches(
    incoming: Seq<(UniformResource, u32)>,
    snapshot: Seq<(UniformResource, u32)>,
    cap: Seq<(UniformResource, u64)>,
    overall: nat,
    farm: Seq<(UniformResource, u32)>,
    flow: (UniformResource, ResourceFlow),
    i: int,
) -> bool {
    let st = distributed_stored(incoming, snapshot, cap, overall, farm, i);
    &&& flow.0 == incoming[i].0
    &&& flow.1.stored == st
    &&& flow.1.lost == incoming[i].1 - st
}

fn lookup_qty_exec(m: &[(UniformResource, u32)], r: UniformResource) -> (v: u32)
    ensures
        v == lookup_qty(m@, r),
{
    let mut i = m.len();
    proof {
        assert(m@.take(i as int) =~= m@);
    }
    while i > 0
        invariant
            i <= m@.len(),
            lookup_qty(m@, r) == lookup_qty(m@.take(i as int), r),
        decreases i,
    {
        proof {
            assert(m@.take(i as int).drop_last() =~= m@.take(i - 1));
        }
        if m[i - 1].0 == r {
            return m[i - 1].1;
        }
        i = i - 1;
    }
    0
}

fn lookup_cap_exec(m: &[(UniformResource, u64)], r: UniformResource) -> (v: u64)
    ensures
        v == lookup_cap(m@, r),
{
    let mut i = m.len();
    proof {
        assert(m@.take(i as int) =~= m@);
    }
    while i > 0
        invariant
            i <= m@.len(),
            lookup_cap(m@, r) == lookup_cap(m@.take(i as int), r),
        decreases i,
    {
        proof {
            assert(m@.take(i as int).drop_last() =~= m@.take(i - 1));
        }
        if m[i - 1].0 == r {
            return m[i - 1].1;
        }
        i = i - 1;
    }
    0
}

pub(crate) fn rank(r: UniformResource) -> (n: u8)
    ensures
        n == resource_rank(r),
{
    match r {
        UniformResource::Potato => 0,
        UniformResource::Timber => 1,
        UniformResource::Straw => 2,
        UniformResource::Canvas => 3,
        UniformResource::Fieldstone => 4,
        UniformResource::Block => 5,
        UniformResource::Lime => 6,
        UniformResource::Plank => 7,
    }
}

fn is_more_plentiful(
    snapshot: &[(UniformResource, u32)],
    farm: &[(UniformResource, u32)],
    a: UniformResource,
    b: UniformResource,
) -> (m: bool)
    ensures
        m == more_plentiful(snapshot@, farm@, a, b),
{
    let sa = lookup_qty_exec(snapshot, a);
    let sb = lookup_qty_exec(snapshot, b);
    let fa = lookup_qty_exec(farm, a);
    let fb = lookup_qty_exec(farm, b);
    sa > sb || (sa == sb && (fa > fb || (fa == fb && rank(a) < rank(b))))
}

/// Distributes a month's leftover inflow between storage and loss.
///
/// Each resource may store at most its own free capacity (whole units), and
/// together at most the sum of the arriving resources' capacities capped by
/// the overall free capacity (so unrestricted bins shared by several
/// resources are not counted twice). When more would be stored than that,
/// the excess is discarded starting from the most plentiful resource (see
/// `more_plentiful`). Capacities are in hundredths of a storage unit; the
/// result has one flow per incoming entry, in order.
pub fn distribute_incoming_resources(
    incoming: &[(UniformResource, u32)],
    storage_snapshot: &[(UniformResource, u32)],
    storage_free_capacity: &[(UniformResource, u64)],
    overall_free_capacity: u64,
    known_farm_output: &[(UniformResource, u32)],
) -> (flows: Vec<(UniformResource, ResourceFlow)>)
    requires
        distinct_resources(incoming@),
    ensures
        flows@.len() == incoming@.len(),
        forall|i: int| 0 <= i < incoming@.len() ==> flow_matches(
            incoming@,
            storage_snapshot@,
            storage_free_capacity@,
            overall_free_capacity as nat,
            known_farm_output@,
            #[trigger] flows@[i],
            i,
        ),
{
    let n = incoming.len();
    let ghost inc = incoming@;
    let ghost cap = storage_free_capacity@;
    // What each resource could store on its own.
    let mut own: Vec<u32> = Vec::new();
    let mut total: u128 = 0;
    let mut pool: u128 = 0;
    for i in 0..n
        invariant
            n == inc.len(),
            inc == incoming@,
            cap == storage_free_capacity@,
            own@.len() == i,
            forall|k: int| 0 <= k < i ==> own@[k] == own_storable(inc, cap, k),
            total == storable_sum(inc, cap, i as int),
            pool == pool_capacity(inc, cap, i as int),
            total <= i * 0xffff_ffff,
            pool <= i * 0xffff_ffff_ffff_ffff,
    {
        let (r, q) = incoming[i];
        let c = lookup_cap_exec(storage_free_capacity, r) / 100;
        let o: u32 = if (q as u64) <= c { q } else { c as u32 };
        own.push(o);
        total = total + o as u128;
        if q > 0 {
            pool = pool + lookup_cap_exec(storage_free_capacity, r) as u128;
        }
    }
    let capped_pool: u128 = if pool <= overall_free_capacity as u128 { pool } else { overall_free_capacity as u128 };
    let budget: u128 = capped_pool / 100;
    let excess: u128 = if total > budget { total - budget } else { 0 };

    let mut flows: Vec<(UniformResource, ResourceFlow)> = Vec::new();
    for i in 0..n
        invariant
            n == inc.len(),
            inc == incoming@,
            cap == storage_free_capacity@,
            own@.len() == n,
            forall|k: int| 0 <= k < n ==> own@[k] == own_storable(inc, cap, k),
            total == storable_sum(inc, cap, n as int),
            budget == storage_budget(inc, cap, overall_free_capacity as nat),
            excess == (if total > budget { total - budget } else { 0 }),
            flows@.len() == i,
            forall|k: int| 0 <= k < i ==> flow_matches(inc, storage_snapshot@, cap, overall_free_capacity as nat, known_farm_output@, #[trigger] flows@[k], k),
    {
        let r = incoming[i].0;
        // Whatever more plentiful resources could give up first.
        let mut ahead: u128 = 0;
        for j in 0..n
            invariant
                n == inc.len(),
                inc == incoming@,
                cap == storage_free_capacity@,
                own@.len() == n,
                forall|k: int| 0 <= k < n ==> own@[k] == own_storable(inc, cap, k),
                ahead == storable_ahead_of(inc, cap, storage_snapshot@, known_farm_output@, r, j as int),
                ahead <= j * 0xffff_ffff,
        {
            if is_more_plentiful(storage_snapshot, known_farm_output, incoming[j].0, r) {
                ahead = ahead + own[j] as u128;
            }
        }
        let left: u128 = if excess > ahead { excess - ahead } else { 0 };
        let o = own[i];
        let stored: u32 = if (o as u128) <= left { 0 } else { (o as u128 - left) as u32 };
        proof {
            assert(own_storable(inc, cap, i as int) <= inc[i as int].1);
        }
        let lost: u32 = incoming[i].1 - stored;
        proof {
            assert(stored == distributed_stored(
                inc,
                storage_snapshot@,
                cap,
                overall_free_capacity as nat,
                known_farm_output@,
                i as int,
            ));
        }
        let ghost prev = flows@;
        flows.push((r, ResourceFlow { stored, lost }));
        proof {
            assert forall|k: int| 0 <= k < i + 1 implies flow_matches(inc, storage_snapshot@, cap, overall_free_capacity as nat, known_farm_output@, #[trigger] flows@[k], k) by {
                if k < i {
                    assert(flows@[k] == prev[k]);
                }
            }
        }
    }
    flows
}


proof fn lemma_more_plentiful_order(
    snapshot: Seq<(UniformResource, u32)>,
    farm: Seq<(UniformResource, u32)>,
    a: UniformResource,
    b: UniformResource,
    c: UniformResource,
)
    ensures
        !more_plentiful(snapshot, farm, a, a),
        more_plentiful(snapshot, farm, a, b) && more_plentiful(snapshot, farm, b, c)
            ==> more_plentiful(snapshot, farm, a, c),
{
}

proof fn lemma_ahead_grows(
    incoming: Seq<(UniformResource, u32)>,
    cap: Seq<(UniformResource, u64)>,
    snapshot: Seq<(UniformResource, u32)>,
    farm: Seq<(UniformResource, u32)>,
    i: int,
    j: int,
    n: int,
)
    requires
        0 <= i < incoming.len(),
        0 <= j < incoming.len(),
        n <= incoming.len(),
        more_plentiful(snapshot, farm, incoming[i].0, incoming[j].0),
    ensures
        storable_ahead_of(incoming, cap, snapshot, farm, incoming[j].0, n)
            >= storable_ahead_of(incoming, cap, snapshot, farm, incoming[i].0, n)
                + if i < n { own_storable(incoming, cap, i) } else { 0 },
    decreases n,
{
    if n > 0 {
        lemma_ahead_grows(incoming, cap, snapshot, farm, i, j, n - 1);
        let k = n - 1;
        lemma_more_plentiful_order(snapshot, farm, incoming[k].0, incoming[i].0, incoming[j].0);
        lemma_more_plentiful_order(snapshot, farm, incoming[i].0, incoming[i].0, incoming[j].0);
    }
}

/// Excess is cut from the most plentiful resources first: while a resource
/// still stores anything, every less plentiful one stores all it can on its
/// own.
pub proof fn lemma_scarce_resources_keep_priority(
    incoming: Seq<(UniformResource, u32)>,
    snapshot: Seq<(UniformResource, u32)>,
    cap: Seq<(UniformResource, u64)>,
    overall: nat,
    farm: Seq<(UniformResource, u32)>,
    i: int,
    j: int,
)
    requires
        0 <= i < incoming.len(),
        0 <= j < incoming.len(),
        more_plentiful(snapshot, farm, incoming[i].0, incoming[j].0),
        distributed_stored(incoming, snapshot, cap, overall, farm, i) > 0,
    ensures
        distributed_stored(incoming, snapshot, cap, overall, farm, j) == own_storable(incoming, cap, j),
{
    lemma_ahead_grows(incoming, cap, snapshot, farm, i, j, incoming.len() as int);
}

/// Nothing is stored beyond what arrived, nor beyond what the resource could
/// store on its own; every arrival is split exactly into stored and lost.
pub proof fn lemma_flow_within_arrival(
    incoming: Seq<(UniformResource, u32)>,
    snapshot: Seq<(UniformResource, u32)>,
    cap: Seq<(UniformResource, u64)>,
    overall: nat,
    farm: Seq<(UniformResource, u32)>,
    i: int,
)
    requires
        0 <= i < incoming.len(),
    ensures
        distributed_stored(incoming, snapshot, cap, overall, farm, i) <= own_storable(incoming, cap, i),
        own_storable(incoming, cap, i) <= incoming[i].1,
        own_storable(incoming, cap, i) <= lookup_cap(cap, incoming[i].0) / 100,
{
}


/// Storing one more rug takes a whole storage unit (100 hundredths, what a
/// unit of a uniform resource takes and twice a tool) from the rack pool and
/// nothing from the others; a tool takes half a unit of the rack pool and a
/// book a twentieth of the book pool.
pub proof fn lemma_rug_takes_a_whole_unit(items: Seq<UniqueResource>, color: RugColor, k: ToolKind, title: String)
    ensures
        items_volume(items.push(UniqueResource::Rug { color }), StorageKind::Rack) == items_volume(items, StorageKind::Rack) + 100,
        items_volume(items.push(UniqueResource::Rug { color }), StorageKind::Book) == items_volume(items, StorageKind::Book),
        items_volume(items.push(UniqueResource::Tool(k)), StorageKind::Rack) == items_volume(items, StorageKind::Rack) + 50,
        items_volume(items.push(UniqueResource::Book { title }), StorageKind::Book) == items_volume(items, StorageKind::Book) + 5,
        items_volume(items.push(UniqueResource::Book { title }), StorageKind::Rack) == items_volume(items, StorageKind::Rack),
{
    assert(items.push(UniqueResource::Rug { color }).drop_last() =~= items);
    assert(items.push(UniqueResource::Tool(k)).drop_last() =~= items);
    assert(items.push(UniqueResource::Book { title }).drop_last() =~= items);
}


/// Storing one more rug leaves a whole storage unit (100 hundredths) less
/// room in the rack pool.
pub proof fn lemma_rug_lowers_rack_room(before: Inventory, after: Inventory, color: RugColor)
    requires
        after.caps() == before.caps(),
        after.spec_items() == before.spec_items().push(UniqueResource::Rug { color }),
    ensures
        after.spec_volume_of_kind(StorageKind::Rack) == before.spec_volume_of_kind(StorageKind::Rack) + 100,
        capacity_in(before.caps(), StorageKind::Rack) >= before.spec_volume_of_kind(StorageKind::Rack) + 100 ==>
            capacity_in(after.caps(), StorageKind::Rack) - after.spec_volume_of_kind(StorageKind::Rack)
                == capacity_in(before.caps(), StorageKind::Rack) - before.spec_volume_of_kind(StorageKind::Rack) - 100,
{
    let items = before.spec_items();
    assert(items.push(UniqueResource::Rug { color }).drop_last() =~= items);
}

} // verus!
