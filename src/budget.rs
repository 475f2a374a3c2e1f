//! Budget line items and the budget that holds them.

use vstd::prelude::*;
use crate::text::push_str;
use crate::allocation::{
    distribute,
    fill_share,
    fixed_share,
    is_fill_level,
    pool_after_fixed,
    total,
};

verus! {

/// What a line item is: its name, its monthly value in cents, and whether
/// it is expandable (funded from what the fixed items leave) or fixed.
pub struct PartModel {
    pub name: Seq<char>,
    pub value: u64,
    pub expandable: bool,
}

/// One line item of a budget. It does not change once made.
pub struct BudgetPart {
    name: String,
    monthly_value: u64,
    expandable: bool,
}

impl View for BudgetPart {
    type V = PartModel;

    closed spec fn view(&self) -> PartModel {
        PartModel { name: self.name@, value: self.monthly_value, expandable: self.expandable }
    }
}

impl BudgetPart {
    /// A line item with the given name, monthly value in cents, and kind.
    pub fn new(name: String, monthly_value: u64, expandable: bool) -> (r: BudgetPart)
        ensures
            r@ == (PartModel { name: name@, value: monthly_value, expandable }),
    {
        BudgetPart { name, monthly_value, expandable }
    }

    pub fn name(&self) -> (r: &String)
        ensures
            r@ == self@.name,
    {
        &self.name
    }

    /// The monthly value, in cents.
    pub fn monthly_value(&self) -> (r: u64)
        ensures
            r == self@.value,
    {
        self.monthly_value
    }

    pub fn expandable(&self) -> (r: bool)
        ensures
            r == self@.expandable,
    {
        self.expandable
    }
}

/// The models of a sequence of line items.
pub open spec fn models(parts: Seq<BudgetPart>) -> Seq<PartModel> {
    parts.map_values(|p: BudgetPart| p@)
}

/// The monthly values of a sequence of line items.
pub open spec fn values_of(parts: Seq<PartModel>) -> Seq<u64> {
    parts.map_values(|p: PartModel| p.value)
}

/// What a budget is: its fixed items and its expandable items, each in the
/// order in which they were added.
pub struct BudgetModel {
    pub fixed: Seq<PartModel>,
    pub expandable: Seq<PartModel>,
}

/// A budget: the fixed items, whose order is their funding priority, and
/// the expandable items, which are funded alike.
pub struct Budget {
    parts: Vec<BudgetPart>,
    expandable_parts: Vec<BudgetPart>,
}

impl View for Budget {
    type V = BudgetModel;

    closed spec fn view(&self) -> BudgetModel {
        BudgetModel { fixed: models(self.parts@), expandable: models(self.expandable_parts@) }
    }
}

/// The division of `income` over budget `b`: each fixed item gets what the
/// income still holds after the items before it, up to its value; what the
/// fixed items leave is spread over the expandable items by water-filling,
/// and only what fills every expandable item to its cap is left over.
pub open spec fn is_allocation_of(
    b: BudgetModel,
    income: int,
    fixed: Seq<u64>,
    expandable: Seq<u64>,
    leftover: int,
) -> bool {
    let values = values_of(b.fixed);
    let caps = values_of(b.expandable);
    let pool = pool_after_fixed(values, income);
    &&& fixed.len() == values.len()
    &&& forall|i: int| 0 <= i < values.len() ==> fixed[i] == fixed_share(values, income, i)
    &&& expandable.len() == caps.len()
    &&& pool >= total(caps) ==> expandable == caps && leftover == pool - total(caps)
    &&& pool < total(caps) ==> leftover == 0 && exists|level: int|
        is_fill_level(caps, pool, level) && forall|i: int|
            0 <= i < caps.len() ==> expandable[i] == fill_share(caps, pool, level, i)
}

/// One line of a preview: a line item's name, monthly value in cents, and
/// kind.
pub struct PreviewRow {
    pub name: String,
    pub monthly_value: u64,
    pub expandable: bool,
}

/// One line of a report: a name and an amount in cents.
pub struct ReportRow {
    pub name: String,
    pub amount: u64,
}

/// How an income is divided over a budget: one amount per fixed item, one
/// per expandable item (both in the budget's order), and what is left.
/// Amounts are in cents.
pub struct Allocation {
    pub fixed: Vec<u64>,
    pub expandable: Vec<u64>,
    pub leftover: u64,
}

impl Default for Budget {
    fn default() -> (r: Budget)
        ensures
            r@.fixed.len() == 0,
            r@.expandable.len() == 0,
    {
        Budget { parts: Vec::new(), expandable_parts: Vec::new() }
    }
}

impl Budget {
    /// An empty budget.
    pub fn new() -> (r: Budget)
        ensures
            r@.fixed.len() == 0,
            r@.expandable.len() == 0,
    {
        Budget { parts: Vec::new(), expandable_parts: Vec::new() }
    }

    /// Builds a budget from its two sections.
    pub(crate) fn from_sections(parts: Vec<BudgetPart>, expandable_parts: Vec<BudgetPart>) -> (r:
        Budget)
        ensures
            r@ == (BudgetModel { fixed: models(parts@), expandable: models(expandable_parts@) }),
    {
        Budget { parts, expandable_parts }
    }

    /// Appends a line item to the section that its kind names.
    pub fn push_part(&mut self, part: BudgetPart)
        ensures
            part@.expandable ==> final(self)@ == (BudgetModel {
                fixed: old(self)@.fixed,
                expandable: old(self)@.expandable.push(part@),
            }),
            !part@.expandable ==> final(self)@ == (BudgetModel {
                fixed: old(self)@.fixed.push(part@),
                expandable: old(self)@.expandable,
            }),
    {
        if part.expandable {
            self.expandable_parts.push(part);
            assert(models(self.expandable_parts@) =~= models(old(self).expandable_parts@).push(
                part@,
            ));
        } else {
            self.parts.push(part);
            assert(models(self.parts@) =~= models(old(self).parts@).push(part@));
        }
    }

    /// The fixed items, in funding order.
    pub fn parts(&self) -> (r: &Vec<BudgetPart>)
        ensures
            models(r@) == self@.fixed,
    {
        &self.parts
    }

    /// The expandable items, in the order they were added.
    pub fn expandable_parts(&self) -> (r: &Vec<BudgetPart>)
        ensures
            models(r@) == self@.expandable,
    {
        &self.expandable_parts
    }

    /// One row per line item: the fixed items, then the expandable items,
    /// each in the budget's order.
    pub fn preview(&self) -> (r: Vec<PreviewRow>)
        ensures
            r.len() == self@.fixed.len() + self@.expandable.len(),
            forall|i: int|
                0 <= i < self@.fixed.len() ==> r[i].name@ == self@.fixed[i].name
                    && r[i].monthly_value == self@.fixed[i].value && r[i].expandable
                    == self@.fixed[i].expandable,
            forall|i: int|
                0 <= i < self@.expandable.len() ==> r[self@.fixed.len() + i].name@
                    == self@.expandable[i].name && r[self@.fixed.len() + i].monthly_value
                    == self@.expandable[i].value && r[self@.fixed.len() + i].expandable
                    == self@.expandable[i].expandable,
    {
        let mut rows: Vec<PreviewRow> = Vec::new();
        push_preview_rows(&mut rows, &self.parts);
        let ghost r1 = rows@;
        push_preview_rows(&mut rows, &self.expandable_parts);
        proof {
            let nf = self@.fixed.len() as int;
            assert(self@.fixed == models(self.parts@));
            assert(self@.expandable == models(self.expandable_parts@));
            assert forall|i: int| 0 <= i < nf implies rows@[i] == r1[i] by {}
            assert(r1.len() == nf);
        }
        rows
    }

    /// Divides `income` (in cents) over the budget: the fixed items in order,
    /// then the expandable items by water-filling.
    pub fn allocate(&self, income: u64) -> (r: Allocation)
        ensures
            is_allocation_of(self@, income as int, r.fixed@, r.expandable@, r.leftover as int),
            total(r.fixed@) + total(r.expandable@) + r.leftover == income,
            forall|i: int|
                0 <= i && i + 1 < r.fixed.len() && r.fixed[i + 1] > 0 ==> r.fixed[i]
                    == self@.fixed[i].value,
            forall|i: int|
                0 <= i < r.expandable.len() ==> r.expandable[i] <= self@.expandable[i].value,
            forall|i: int, j: int|
                0 <= i < r.expandable.len() && 0 <= j < r.expandable.len() && r.expandable[i]
                    < self@.expandable[i].value ==> r.expandable[j] <= r.expandable[i] + 1,
    {
        let fixed = values_vec(&self.parts);
        let caps = values_vec(&self.expandable_parts);
        let (f, e, left) = distribute(&fixed, &caps, income);
        Allocation { fixed: f, expandable: e, leftover: left }
    }

    /// The report of dividing `income` (in cents) over the budget: one row
    /// per fixed item, one per expandable item, each in the budget's order,
    /// and a last row with what is left over.
    pub fn report(&self, income: u64) -> (r: Vec<ReportRow>)
        ensures
            ({
                let nf = self@.fixed.len() as int;
                let ne = self@.expandable.len() as int;
                &&& r.len() == nf + ne + 1
                &&& exists|f: Seq<u64>, e: Seq<u64>, l: int|
                    is_allocation_of(self@, income as int, f, e, l) && (forall|i: int|
                        0 <= i < nf ==> r[i].name@ == self@.fixed[i].name && r[i].amount == f[i])
                        && (forall|i: int|
                        0 <= i < ne ==> r[nf + i].name@ == self@.expandable[i].name && r[nf
                            + i].amount == e[i]) && r[nf + ne].name@ == "Leftover Money"@
                        && r[nf + ne].amount == l
            }),
    {
        let a = self.allocate(income);
        let mut rows: Vec<ReportRow> = Vec::new();
        push_rows(&mut rows, &self.parts, &a.fixed);
        let ghost r1 = rows@;
        push_rows(&mut rows, &self.expandable_parts, &a.expandable);
        let mut label = String::new();
        push_str(&mut label, "Leftover Money");
        let ghost before = rows@;
        rows.push(ReportRow { name: label, amount: a.leftover });
        proof {
            let nf = self@.fixed.len() as int;
            let ne = self@.expandable.len() as int;
            assert forall|i: int| 0 <= i < nf + ne implies rows@[i] == before[i] by {}
            assert forall|i: int| 0 <= i < nf implies rows@[i].name@ == self@.fixed[i].name
                && rows@[i].amount == a.fixed@[i] by {
                assert(rows@[i] == before[i]);
                assert(before[i] == r1[i]);
                assert(self@.fixed == models(self.parts@));
            }
            assert forall|i: int| 0 <= i < ne implies rows@[nf + i].name@
                == self@.expandable[i].name && rows@[nf + i].amount == a.expandable@[i] by {
                assert(rows@[nf + i] == before[nf + i]);
                assert(r1.len() == nf);
                assert(self@.expandable == models(self.expandable_parts@));
            }
            assert(is_allocation_of(
                self@,
                income as int,
                a.fixed@,
                a.expandable@,
                a.leftover as int,
            ));
        }
        rows
    }
}

/// Appends one preview row per item.
fn push_preview_rows(rows: &mut Vec<PreviewRow>, parts: &Vec<BudgetPart>)
    ensures
        final(rows)@.len() == old(rows)@.len() + parts.len(),
        forall|k: int| 0 <= k < old(rows)@.len() ==> final(rows)@[k] == old(rows)@[k],
        forall|j: int|
            old(rows)@.len() <= j < final(rows)@.len() ==> (#[trigger] final(rows)@[j]).name@
                == models(parts@)[j - old(rows)@.len()].name && final(rows)@[j].monthly_value
                == models(parts@)[j - old(rows)@.len()].value && final(rows)@[j].expandable
                == models(parts@)[j - old(rows)@.len()].expandable,
{
    let ghost start = rows@;
    let mut i: usize = 0;
    while i < parts.len()
        invariant
            i <= parts.len(),
            start == old(rows)@,
            rows@.len() == start.len() + i,
            forall|k: int| 0 <= k < start.len() ==> rows@[k] == start[k],
            forall|k: int|
                0 <= k < i ==> #[trigger] rows@[start.len() + k] == (PreviewRow {
                    name: parts@[k].name,
                    monthly_value: parts@[k].monthly_value,
                    expandable: parts@[k].expandable,
                }),
        decreases parts.len() - i,
    {
        let name = parts[i].name.clone();
        rows.push(
            PreviewRow {
                name,
                monthly_value: parts[i].monthly_value,
                expandable: parts[i].expandable,
            },
        );
        i = i + 1;
    }
    assert forall|j: int| start.len() <= j < rows@.len() implies (#[trigger] rows@[j]).name@
        == models(parts@)[j - start.len()].name && rows@[j].monthly_value == models(
        parts@,
    )[j - start.len()].value && rows@[j].expandable == models(parts@)[j
        - start.len()].expandable by {
        let k = j - start.len();
        assert(rows@[start.len() + k] == (PreviewRow {
            name: parts@[k].name,
            monthly_value: parts@[k].monthly_value,
            expandable: parts@[k].expandable,
        }));
    }
}

/// Appends one row per item, with the item's name and the matching amount.
fn push_rows(rows: &mut Vec<ReportRow>, parts: &Vec<BudgetPart>, amounts: &Vec<u64>)
    requires
        parts.len() == amounts.len(),
    ensures
        final(rows)@.len() == old(rows)@.len() + parts.len(),
        forall|k: int| 0 <= k < old(rows)@.len() ==> final(rows)@[k] == old(rows)@[k],
        forall|j: int|
            old(rows)@.len() <= j < final(rows)@.len() ==> (#[trigger] final(rows)@[j]).name@
                == models(parts@)[j - old(rows)@.len()].name && final(rows)@[j].amount
                == amounts[j - old(rows)@.len()],
{
    let ghost start = rows@;
    let mut i: usize = 0;
    while i < parts.len()
        invariant
            i <= parts.len() == amounts.len(),
            start == old(rows)@,
            rows@.len() == start.len() + i,
            forall|k: int| 0 <= k < start.len() ==> rows@[k] == start[k],
            forall|k: int|
                0 <= k < i ==> #[trigger] rows@[start.len() + k] == (ReportRow {
                    name: parts@[k].name,
                    amount: amounts@[k],
                }),
        decreases parts.len() - i,
    {
        let name = parts[i].name.clone();
        rows.push(ReportRow { name, amount: amounts[i] });
        i = i + 1;
    }
    assert forall|j: int| start.len() <= j < rows@.len() implies (#[trigger] rows@[j]).name@
        == models(parts@)[j - start.len()].name && rows@[j].amount == amounts[j - start.len()] by {
        let k = j - start.len();
        assert(rows@[start.len() + k] == (ReportRow { name: parts@[k].name, amount: amounts@[k] }));
    }
}

/// The monthly values of `parts`, in order.
fn values_vec(parts: &Vec<BudgetPart>) -> (r: Vec<u64>)
    ensures
        r@ == values_of(models(parts@)),
{
    let mut r: Vec<u64> = Vec::new();
    let mut i: usize = 0;
    while i < parts.len()
        invariant
            i <= parts.len(),
            r@ == values_of(models(parts@.subrange(0, i as int))),
        decreases parts.len() - i,
    {
        r.push(parts[i].monthly_value);
        assert(values_of(models(parts@.subrange(0, i + 1))) =~= values_of(
            models(parts@.subrange(0, i as int)),
        ).push(parts[i as int].monthly_value));
        i = i + 1;
    }
    assert(parts@.subrange(0, parts.len() as int) =~= parts@);
    r
}

} // verus!
