use fru::{check_fit_parameters, validate_schema, ArrayDType, FitParamError, SchemaError};

fn names(v: &[&str]) -> Vec<String> {
    v.iter().map(|x| x.to_string()).collect()
}

#[test]
fn fit_parameters_in_order() {
    assert_eq!(check_fit_parameters(0, 0, 0, 0, 1), Err(FitParamError::NoTrees));
    assert_eq!(check_fit_parameters(1, 0, 3, 10, 10), Err(FitParamError::NoTries));
    assert_eq!(check_fit_parameters(1, 4, 3, 10, 10), Err(FitParamError::TooManyTries));
    assert_eq!(check_fit_parameters(1, 3, 3, 0, 0), Err(FitParamError::EmptyData));
    assert_eq!(check_fit_parameters(1, 3, 3, 10, 9), Err(FitParamError::DecisionLength));
    assert_eq!(check_fit_parameters(100, 3, 3, 10, 10), Ok(()));
    assert_eq!(
        FitParamError::TooManyTries.message(),
        "Tries cannot be greater than ncol"
    );
    assert_eq!(
        FitParamError::DecisionLength.message(),
        "Decision length must be equal number of data frame rows"
    );
}

#[test]
fn schema_matches_itself() {
    let n = names(&["a", "b"]);
    let t = vec![ArrayDType::Float64, ArrayDType::Categorical8];
    let c = vec![None, Some(names(&["x", "y"]))];
    assert_eq!(validate_schema(&n, &t, &c, &n, &t, &c), Ok(()));
}

#[test]
fn schema_reports_first_kind_of_mismatch() {
    let n = names(&["a", "b"]);
    let t = vec![ArrayDType::Float64, ArrayDType::Categorical8];
    let c = vec![None, Some(names(&["x", "y"]))];
    let n2 = names(&["a", "c"]);
    let t2 = vec![ArrayDType::Float32, ArrayDType::Categorical8];
    let c2 = vec![None, Some(names(&["y", "x"]))];
    assert_eq!(validate_schema(&n2, &t2, &c2, &n, &t, &c), Err(SchemaError::ColumnNames));
    assert_eq!(validate_schema(&n, &t2, &c2, &n, &t, &c), Err(SchemaError::ColumnTypes));
    assert_eq!(validate_schema(&n, &t, &c2, &n, &t, &c), Err(SchemaError::CategoricalValues));
    let c3 = vec![None, None];
    assert_eq!(validate_schema(&n, &t, &c3, &n, &t, &c), Err(SchemaError::CategoricalValues));
    assert_eq!(SchemaError::ColumnNames.message(), "Column names do not match");
}

#[test]
fn schema_compares_shared_columns_only() {
    let n = names(&["a", "b", "c"]);
    let short = names(&["a"]);
    let t = vec![ArrayDType::Boolean];
    let c: Vec<Option<Vec<String>>> = vec![None];
    assert_eq!(validate_schema(&short, &t, &c, &n, &t, &c), Ok(()));
}
