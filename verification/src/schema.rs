use vstd::prelude::*;

verus! {

/// Data type of a feature column of a training table.
#[derive(Debug, Clone, Copy, PartialEq, Eq, Structural)]
pub enum ArrayDType {
    Boolean,
    Float32,
    Float64,
    Integer8,
    Integer16,
    Integer32,
    Integer64,
    UInteger8,
    UInteger16,
    UInteger32,
    UInteger64,
    Categorical8,
    Categorical16,
    Categorical32,
    Categorical64,
}

/// Why a table does not match the one a model was trained on.
#[derive(Debug, Clone, Copy, PartialEq, Eq, Structural)]
pub enum SchemaError {
    ColumnNames,
    ColumnTypes,
    CategoricalValues,
}

impl SchemaError {
    /// Human-readable description of the mismatch.
    pub fn message(&self) -> (r: &'static str)
        ensures
            *self == SchemaError::ColumnNames ==> r@ == "Column names do not match"@,
            *self == SchemaError::ColumnTypes ==> r@ == "Column types do not match"@,
            *self == SchemaError::CategoricalValues ==> r@
                == "Categorical features unique values do not match"@,
    {
        match self {
            SchemaError::ColumnNames => "Column names do not match",
            SchemaError::ColumnTypes => "Column types do not match",
            SchemaError::CategoricalValues => "Categorical features unique values do not match",
        }
    }
}

/// Why training parameters are refused.
#[derive(Debug, Clone, Copy, PartialEq, Eq, Structural)]
pub enum FitParamError {
    NoTrees,
    NoTries,
    TooManyTries,
    EmptyData,
    DecisionLength,
}

impl FitParamError {
    /// Human-readable description of the refusal.
    pub fn message(&self) -> (r: &'static str)
        ensures
            *self == FitParamError::NoTrees ==> r@ == "Trees parameter must be greater than 0"@,
            *self == FitParamError::NoTries ==> r@ == "Tries parameter must be greater than 0"@,
            *self == FitParamError::TooManyTries ==> r@ == "Tries cannot be greater than ncol"@,
            *self == FitParamError::EmptyData ==> r@ == "Data frame cannot be empty"@,
            *self == FitParamError::DecisionLength ==> r@
                == "Decision length must be equal number of data frame rows"@,
    {
        match self {
            FitParamError::NoTrees => "Trees parameter must be greater than 0",
            FitParamError::NoTries => "Tries parameter must be greater than 0",
            FitParamError::TooManyTries => "Tries cannot be greater than ncol",
            FitParamError::EmptyData => "Data frame cannot be empty",
            FitParamError::DecisionLength => "Decision length must be equal number of data frame rows",
        }
    }
}

/// Checks the training parameters against the table shape (`ncol` columns,
/// `nrow` rows) and the decision length, in this order: some trees, some
/// tries, no more tries than columns, some rows, one decision per row.
pub fn check_fit_parameters(trees: usize, tries: usize, ncol: usize, nrow: usize, decision_len: usize) -> (r: Result<(), FitParamError>)
    ensures
        r == if trees == 0 {
            Err(FitParamError::NoTrees)
        } else if tries == 0 {
            Err(FitParamError::NoTries)
        } else if tries > ncol {
            Err(FitParamError::TooManyTries)
        } else if nrow == 0 {
            Err(FitParamError::EmptyData)
        } else if nrow != decision_len {
            Err(FitParamError::DecisionLength)
        } else {
            Ok(())
        },
{
    if trees == 0 {
        Err(FitParamError::NoTrees)
    } else if tries == 0 {
        Err(FitParamError::NoTries)
    } else if tries > ncol {
        Err(FitParamError::TooManyTries)
    } else if nrow == 0 {
        Err(FitParamError::EmptyData)
    } else if nrow != decision_len {
        Err(FitParamError::DecisionLength)
    } else {
        Ok(())
    }
}

/// Shorter of two lengths (the pairs a zip produces).
pub open spec fn paired(a: nat, b: nat) -> nat {
    if a <= b {
        a
    } else {
        b
    }
}

/// Whether two lists of category names are equal (both absent, or the same
/// names in the same order).
pub open spec fn same_categories(a: Option<Vec<String>>, b: Option<Vec<String>>) -> bool {
    match (a, b) {
        (None, None) => true,
        (Some(x), Some(y)) => x@.len() == y@.len() && forall|i: int| 0 <= i < x@.len() ==> #[trigger] x@[i]@ == y@[i]@,
        _ => false,
    }
}

fn names_equal(x: &Vec<String>, y: &Vec<String>) -> (r: bool)
    ensures
        r == (x@.len() == y@.len() && forall|i: int| 0 <= i < x@.len() ==> #[trigger] x@[i]@ == y@[i]@),
{
    if x.len() != y.len() {
        return false;
    }
    let mut i: usize = 0;
    while i < x.len()
        invariant
            x@.len() == y@.len(),
            i <= x@.len(),
            forall|k: int| 0 <= k < i ==> #[trigger] x@[k]@ == y@[k]@,
        decreases x@.len() - i,
    {
        if !(x[i] == y[i]) {
            proof {
                assert(x@[i as int]@ != y@[i as int]@);
            }
            return false;
        }
        i = i + 1;
    }
    true
}

fn categories_match(a: &Option<Vec<String>>, b: &Option<Vec<String>>) -> (r: bool)
    ensures
        r == same_categories(*a, *b),
{
    match (a, b) {
        (None, None) => true,
        (Some(x), Some(y)) => names_equal(x, y),
        _ => false,
    }
}

/// Checks a table against the one a model was trained on, column by column
/// over the columns both have: first all names, then all types, then all
/// category lists; the first kind of mismatch found is reported.
pub fn validate_schema(
    names: &[String],
    dtypes: &[ArrayDType],
    categories: &[Option<Vec<String>>],
    ref_names: &[String],
    ref_dtypes: &[ArrayDType],
    ref_categories: &[Option<Vec<String>>],
) -> (r: Result<(), SchemaError>)
    ensures
        r == if exists|i: int| 0 <= i < paired(names@.len(), ref_names@.len()) && #[trigger] names@[i]@ != ref_names@[i]@ {
            Err(SchemaError::ColumnNames)
        } else if exists|i: int| 0 <= i < paired(dtypes@.len(), ref_dtypes@.len()) && #[trigger] dtypes@[i] != ref_dtypes@[i] {
            Err(SchemaError::ColumnTypes)
        } else if exists|i: int| 0 <= i < paired(categories@.len(), ref_categories@.len()) && !same_categories(#[trigger] categories@[i], ref_categories@[i]) {
            Err(SchemaError::CategoricalValues)
        } else {
            Ok(())
        },
{
    let n = if names.len() <= ref_names.len() {
        names.len()
    } else {
        ref_names.len()
    };
    let mut i: usize = 0;
    while i < n
        invariant
            n == paired(names@.len(), ref_names@.len()),
            i <= n,
            forall|k: int| 0 <= k < i ==> #[trigger] names@[k]@ == ref_names@[k]@,
        decreases n - i,
    {
        if !(names[i] == ref_names[i]) {
            proof {
                assert(names@[i as int]@ != ref_names@[i as int]@);
            }
            return Err(SchemaError::ColumnNames);
        }
        i = i + 1;
    }
    proof {
        assert(!exists|i: int| 0 <= i < paired(names@.len(), ref_names@.len()) && #[trigger] names@[i]@ != ref_names@[i]@);
    }
    let m = if dtypes.len() <= ref_dtypes.len() {
        dtypes.len()
    } else {
        ref_dtypes.len()
    };
    let mut j: usize = 0;
    while j < m
        invariant
            m == paired(dtypes@.len(), ref_dtypes@.len()),
            !exists|i: int| 0 <= i < paired(names@.len(), ref_names@.len()) && #[trigger] names@[i]@ != ref_names@[i]@,
            j <= m,
            forall|k: int| 0 <= k < j ==> #[trigger] dtypes@[k] == ref_dtypes@[k],
        decreases m - j,
    {
        if !(dtypes[j] == ref_dtypes[j]) {
            proof {
                assert(dtypes@[j as int] != ref_dtypes@[j as int]);
            }
            return Err(SchemaError::ColumnTypes);
        }
        j = j + 1;
    }
    proof {
        assert(!exists|i: int| 0 <= i < paired(dtypes@.len(), ref_dtypes@.len()) && #[trigger] dtypes@[i] != ref_dtypes@[i]);
    }
    let c = if categories.len() <= ref_categories.len() {
        categories.len()
    } else {
        ref_categories.len()
    };
    let mut k: usize = 0;
    while k < c
        invariant
            c == paired(categories@.len(), ref_categories@.len()),
            !exists|i: int| 0 <= i < paired(names@.len(), ref_names@.len()) && #[trigger] names@[i]@ != ref_names@[i]@,
            !exists|i: int| 0 <= i < paired(dtypes@.len(), ref_dtypes@.len()) && #[trigger] dtypes@[i] != ref_dtypes@[i],
            k <= c,
            forall|x: int| 0 <= x < k ==> same_categories(#[trigger] categories@[x], ref_categories@[x]),
        decreases c - k,
    {
        if !categories_match(&categories[k], &ref_categories[k]) {
            proof {
                assert(!same_categories(categories@[k as int], ref_categories@[k as int]));
            }
            return Err(SchemaError::CategoricalValues);
        }
        k = k + 1;
    }
    Ok(())
}

} // verus!
