use voxircle::sampling::{determine_sample_numbers, SampleDistributeMethod};

fn layers(z: &voxircle::zvec::ZVec<Vec<usize>>) -> Vec<Vec<usize>> {
    z.data.iter().cloned().collect()
}

#[test]
fn include_endpoints_with_half_layers() {
    let z = determine_sample_numbers(SampleDistributeMethod::IncludeEndpoints, 0, 2, 4, true, true);
    assert_eq!(z.get_minimum(), 0);
    assert_eq!(z.get_maximum(), 2);
    assert_eq!(layers(&z), vec![vec![2, 3], vec![0, 1, 2, 3], vec![0, 1]]);
}

#[test]
fn exclude_endpoints_with_half_layers() {
    let z = determine_sample_numbers(SampleDistributeMethod::ExcludeEndpoints, -1, 1, 4, true, true);
    assert_eq!(z.get_minimum(), -1);
    assert_eq!(layers(&z), vec![vec![3, 4], vec![1, 2, 3, 4], vec![1, 2]]);
    let z = determine_sample_numbers(SampleDistributeMethod::ExcludeEndpoints, 5, 5, 3, false, false);
    assert_eq!(layers(&z), vec![vec![1, 2, 3]]);
}

#[test]
fn a_single_sample_per_layer() {
    let z = determine_sample_numbers(SampleDistributeMethod::IncludeEndpoints, 3, 4, 1, true, true);
    assert_eq!(layers(&z), vec![vec![0], vec![0]]);
}

#[test]
fn no_layers() {
    let z = determine_sample_numbers(SampleDistributeMethod::IncludeEndpoints, 3, 2, 5, false, false);
    assert_eq!(layers(&z).len(), 0);
    assert_eq!(z.get_minimum(), 3);
}

#[test]
fn method_names() {
    assert_eq!(SampleDistributeMethod::default(), SampleDistributeMethod::IncludeEndpoints);
    assert_eq!(SampleDistributeMethod::IncludeEndpoints.to_string(), "Include endpoints");
    assert_eq!(SampleDistributeMethod::ExcludeEndpoints.to_string(), "Exclude endpoints");
}
