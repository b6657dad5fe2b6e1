//! Collection of named numeric time series produced by a run: prices,
//! volatilities and population aggregates, keyed by a reporting target
//! and indexed by step. A pure sink: the core records values here and
//! exposes them read-only; rendering and export live outside the library.

use vstd::prelude::*;

verus! {

/// Where in the source a report was made.
#[derive(Debug, Clone)]
pub struct FileLocation {
    pub file: String,
    pub line: u32,
    pub col: u32,
}

/// The identity of one reported series: an optional source location, an
/// optional description, and an optional index (for per-market series).
#[derive(Debug, Clone)]
pub struct ReporterTarget {
    pub origin: Option<FileLocation>,
    pub description: Option<String>,
    pub index: Option<u32>,
}

/// The mathematical identity of a target, used as the series key.
pub open spec fn target_view(t: ReporterTarget)
    -> (Option<(Seq<char>, u32, u32)>, Option<Seq<char>>, Option<u32>)
{
    (
        match t.origin {
            Option::None => Option::None,
            Option::Some(l) => Option::Some((l.file@, l.line, l.col)),
        },
        match t.description {
            Option::None => Option::None,
            Option::Some(d) => Option::Some(d@),
        },
        t.index,
    )
}

impl ReporterTarget {
    /// Whether two targets name the same series.
    pub fn same_target(&self, other: &ReporterTarget) -> (r: bool)
        ensures
            r == (target_view(*self) == target_view(*other)),
    {
        let origin_eq: bool = match (&self.origin, &other.origin) {
            (Option::None, Option::None) => true,
            (Option::Some(a), Option::Some(b)) =>
                a.file == b.file && a.line == b.line && a.col == b.col,
            _ => false,
        };
        let desc_eq: bool = match (&self.description, &other.description) {
            (Option::None, Option::None) => true,
            (Option::Some(a), Option::Some(b)) => *a == *b,
            _ => false,
        };
        let index_eq: bool = match (&self.index, &other.index) {
            (Option::None, Option::None) => true,
            (Option::Some(a), Option::Some(b)) => *a == *b,
            _ => false,
        };
        origin_eq && desc_eq && index_eq
    }
}

/// The key of a target, as stored in a row.
pub open spec fn row_key(row: (ReporterTarget, Vec<Option<i128>>))
    -> (Option<(Seq<char>, u32, u32)>, Option<Seq<char>>, Option<u32>)
{
    target_view(row.0)
}

/// The series recorded under a key: the first row that carries it, or the
/// empty series when no row does.
pub open spec fn series_of(
    rows: Seq<(ReporterTarget, Vec<Option<i128>>)>,
    key: (Option<(Seq<char>, u32, u32)>, Option<Seq<char>>, Option<u32>),
) -> Seq<Option<i128>>
    decreases rows.len(),
{
    if rows.len() == 0 {
        Seq::empty()
    } else if row_key(rows[0]) == key {
        rows[0].1@
    } else {
        series_of(rows.drop_first(), key)
    }
}

/// When the first row carrying a key stands at `row`, the series under
/// that key is that row's.
pub proof fn lemma_series_of_at(
    rows: Seq<(ReporterTarget, Vec<Option<i128>>)>,
    key: (Option<(Seq<char>, u32, u32)>, Option<Seq<char>>, Option<u32>),
    row: int,
)
    requires
        0 <= row < rows.len(),
        row_key(rows[row]) == key,
        forall|i: int| 0 <= i < row ==> row_key(#[trigger] rows[i]) != key,
    ensures
        series_of(rows, key) == rows[row].1@,
    decreases row,
{
    if row > 0 {
        lemma_series_of_at(rows.drop_first(), key, row - 1);
        assert(rows.drop_first()[row - 1] == rows[row]);
        assert(forall|i: int| 0 <= i < row - 1
            ==> #[trigger] rows.drop_first()[i] == rows[i + 1]);
    }
}

/// A key no row carries has the empty series.
pub proof fn lemma_series_of_absent(
    rows: Seq<(ReporterTarget, Vec<Option<i128>>)>,
    key: (Option<(Seq<char>, u32, u32)>, Option<Seq<char>>, Option<u32>),
)
    requires
        forall|i: int| 0 <= i < rows.len() ==> row_key(#[trigger] rows[i]) != key,
    ensures
        series_of(rows, key) == Seq::<Option<i128>>::empty(),
    decreases rows.len(),
{
    if rows.len() > 0 {
        assert(forall|i: int| 0 <= i < rows.len() - 1
            ==> #[trigger] rows.drop_first()[i] == rows[i + 1]);
        lemma_series_of_absent(rows.drop_first(), key);
    }
}

/// The recorded series: one row per target, each a vector of per-step
/// values with `None` standing for steps that reported nothing.
#[derive(Debug)]
pub struct Reporter {
    pub current_step: usize,
    pub per_step: Vec<(ReporterTarget, Vec<Option<i128>>)>,
}

/// No two rows share a key.
pub open spec fn reporter_wf(r: Reporter) -> bool {
    forall|i: int, j: int| 0 <= i < j < r.per_step@.len()
        ==> target_view(#[trigger] r.per_step@[i].0)
            != target_view(#[trigger] r.per_step@[j].0)
}

impl Reporter {
    /// An empty reporter at step zero.
    pub fn new() -> (r: Reporter)
        ensures
            reporter_wf(r),
            r.per_step@.len() == 0,
            r.current_step == 0,
    {
        Reporter {
            current_step: 0,
            per_step: Vec::new(),
        }
    }

    /// Move to a step; later reports land at its index.
    pub fn set_step(&mut self, step: usize)
        requires
            reporter_wf(*old(self)),
        ensures
            reporter_wf(*final(self)),
            final(self).current_step == step,
            final(self).per_step == old(self).per_step,
    {
        self.current_step = step;
    }

    /// Record a value for a target at the current step: the target's row
    /// (created if absent) holds the value at the current step's index,
    /// with `None` padding for any skipped steps.
    pub fn report_num(&mut self, target: ReporterTarget, value: i128)
        requires
            reporter_wf(*old(self)),
            old(self).current_step < usize::MAX,
        ensures
            reporter_wf(*final(self)),
            final(self).current_step == old(self).current_step,
            exists|i: int| 0 <= i < final(self).per_step@.len()
                && target_view(#[trigger] final(self).per_step@[i].0)
                    == target_view(target)
                && final(self).per_step@[i].1@.len() > old(self).current_step
                && final(self).per_step@[i].1@[old(self).current_step as int]
                    == Option::Some(value),
            old(self).per_step@.len() <= final(self).per_step@.len()
                <= old(self).per_step@.len() + 1,
            forall|i: int| 0 <= i < old(self).per_step@.len()
                ==> target_view(#[trigger] final(self).per_step@[i].0)
                    == target_view(old(self).per_step@[i].0),
            forall|i: int| 0 <= i < old(self).per_step@.len()
                && target_view(#[trigger] old(self).per_step@[i].0)
                    != target_view(target)
                ==> final(self).per_step@[i] == old(self).per_step@[i],
            series_of(final(self).per_step@, target_view(target))
                == ({
                    let olds = series_of(old(self).per_step@, target_view(target));
                    let t = old(self).current_step as int;
                    if olds.len() > t {
                        olds.update(t, Option::Some(value))
                    } else {
                        olds + Seq::new((t - olds.len()) as nat,
                            |i: int| Option::<i128>::None)
                            + seq![Option::Some(value)]
                    }
                }),
    {
        let ghost tv = target_view(target);
        let mut row: usize = 0;
        let mut found: bool = false;
        while row < self.per_step.len() && !found
            invariant
                *self == *old(self),
                0 <= row <= self.per_step@.len(),
                found ==> row < self.per_step@.len()
                    && target_view(self.per_step@[row as int].0) == tv,
                !found ==> forall|i: int| 0 <= i < row
                    ==> target_view(#[trigger] self.per_step@[i].0) != tv,
                tv == target_view(target),
            decreases self.per_step@.len() - row + (if found { 0int } else { 1 }),
        {
            if self.per_step[row].0.same_target(&target) {
                found = true;
            } else {
                row = row + 1;
            }
        }
        if !found {
            let empty: Vec<Option<i128>> = Vec::new();
            self.per_step.push((target, empty));
            row = self.per_step.len() - 1;
        }
        let ghost pre_rows = self.per_step@;
        let ghost olds = series_of(old(self).per_step@, tv);
        proof {
            assert forall|i: int, j: int| 0 <= i < j < pre_rows.len()
                implies target_view(#[trigger] pre_rows[i].0)
                    != target_view(#[trigger] pre_rows[j].0) by {
                if j == pre_rows.len() - 1 && !found {
                    assert(target_view(pre_rows[i].0) != tv);
                }
            }
            assert(target_view(pre_rows[row as int].0) == tv);
            if found {
                lemma_series_of_at(old(self).per_step@, tv, row as int);
            } else {
                lemma_series_of_absent(old(self).per_step@, tv);
            }
            assert(olds == pre_rows[row as int].1@);
        }
        let step = self.current_step;
        let series_len = self.per_step[row].1.len();
        if series_len > step {
            self.per_step[row].1.set(step, Some(value));
        } else {
            let mut pad = series_len;
            while pad < step
                invariant
                    series_len <= pad <= step,
                    row < self.per_step@.len(),
                    self.per_step@.len() == pre_rows.len(),
                    self.current_step == step,
                    series_len == pre_rows[row as int].1@.len(),
                    self.per_step@[row as int].1@.len() == pad,
                    self.per_step@[row as int].1@ =~= pre_rows[row as int].1@
                        + Seq::new((pad - series_len) as nat,
                            |i: int| Option::<i128>::None),
                    forall|i: int| 0 <= i < self.per_step@.len() && i != row
                        ==> #[trigger] self.per_step@[i] == pre_rows[i],
                    self.per_step@[row as int].0 == pre_rows[row as int].0,
                decreases step - pad,
            {
                let ghost before = self.per_step@[row as int].1@;
                self.per_step[row].1.push(None);
                pad = pad + 1;
                proof {
                    assert(self.per_step@[row as int].1@ =~= pre_rows[row as int].1@
                        + Seq::new((pad - series_len) as nat,
                            |i: int| Option::<i128>::None));
                }
            }
            self.per_step[row].1.push(Some(value));
            proof {
                assert(self.per_step@[row as int].1@ =~= olds
                    + Seq::new((step - olds.len()) as nat,
                        |i: int| Option::<i128>::None)
                    + seq![Option::Some(value)]);
            }
        }
        proof {
            assert(self.per_step@[row as int].0 == pre_rows[row as int].0);
            assert(target_view(self.per_step@[row as int].0) == tv);
            assert(self.per_step@[row as int].1@[step as int] == Option::Some(value));
            assert forall|i: int, j: int| 0 <= i < j < self.per_step@.len()
                implies target_view(#[trigger] self.per_step@[i].0)
                    != target_view(#[trigger] self.per_step@[j].0) by {
                assert(self.per_step@[i].0 == pre_rows[i].0);
                assert(self.per_step@[j].0 == pre_rows[j].0);
            }
            assert forall|i: int| 0 <= i < row
                implies row_key(#[trigger] self.per_step@[i]) != tv by {
                assert(self.per_step@[i].0 == pre_rows[i].0);
            }
            lemma_series_of_at(self.per_step@, tv, row as int);
        }
    }

    /// The recorded series of a target, if any step reported to it.
    pub fn series(&self, target: &ReporterTarget) -> (r: Option<&Vec<Option<i128>>>)
        requires
            reporter_wf(*self),
        ensures
            r is None ==> forall|i: int| 0 <= i < self.per_step@.len()
                ==> target_view(#[trigger] self.per_step@[i].0)
                    != target_view(*target),
            r is Some ==> exists|i: int| 0 <= i < self.per_step@.len()
                && target_view(#[trigger] self.per_step@[i].0) == target_view(*target)
                && r->0@ == self.per_step@[i].1@,
    {
        let mut row: usize = 0;
        while row < self.per_step.len()
            invariant
                0 <= row <= self.per_step@.len(),
                forall|i: int| 0 <= i < row
                    ==> target_view(#[trigger] self.per_step@[i].0)
                        != target_view(*target),
            decreases self.per_step@.len() - row,
        {
            if self.per_step[row].0.same_target(target) {
                return Some(&self.per_step[row].1);
            }
            row = row + 1;
        }
        None
    }
}

} // verus!
