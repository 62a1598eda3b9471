//! Tests of the co-moving analysis windows.
use debs2021::spliter::IterPair;
use debs2021::spliter::Spliter;

#[test]
fn join_test() {
    let mut x = IterPair(vec![1, 2, 3, 4], vec![2, 3, 4, 5]).with_analysis_windows(
        2,
        2,
        |window: debs2021::windows::AnalysisWindow<i32, i32>, _cache: Option<()>| {
            let current_total: i32 = window.current.iter().sum();
            let lastyear_total: i32 = window.lastyear.iter().sum();
            assert_eq!(current_total + 2, lastyear_total);
            (current_total + lastyear_total, ())
        },
    );
    let mut out: Vec<i32> = Vec::new();
    while let Some(v) = x.next() {
        out.push(v);
    }
    assert_eq!(out, vec![1 + 2 + 2 + 3, 2 + 3 + 3 + 4, 3 + 4 + 4 + 5]);
}

#[test]
fn split_join_test() {
    let mut pairs: Vec<(i32, i32)> = Vec::new();
    for x in 1..5 {
        pairs.push((x, x + 1));
    }
    let mut x = pairs.spliter().with_analysis_windows(
        2,
        2,
        |window: debs2021::windows::AnalysisWindow<i32, i32>, _cache: Option<()>| {
            let current_total: i32 = window.current.iter().sum();
            let lastyear_total: i32 = window.lastyear.iter().sum();
            assert_eq!(current_total + 2, lastyear_total);
            (current_total + lastyear_total, ())
        },
    );
    let mut out: Vec<i32> = Vec::new();
    while let Some(v) = x.next() {
        out.push(v);
    }
    assert_eq!(out, vec![1 + 2 + 2 + 3, 2 + 3 + 3 + 4, 3 + 4 + 4 + 5]);
}

#[test]
fn different_windowsizes_test() {
    let mut pairs: Vec<(i32, i32)> = Vec::new();
    for x in 1..5 {
        pairs.push((x, x + 1));
    }
    let mut x = pairs.spliter().with_analysis_windows(
        1,
        3,
        |window: debs2021::windows::AnalysisWindow<i32, i32>, _cache: Option<()>| {
            let current_total: i32 = window.current.iter().sum();
            let lastyear_total: i32 = window.lastyear.iter().sum();
            (current_total + lastyear_total, ())
        },
    );
    let mut out: Vec<i32> = Vec::new();
    while let Some(v) = x.next() {
        out.push(v);
    }
    assert_eq!(out, vec![3 + (2 + 3 + 4), 4 + (3 + 4 + 5)]);
}

#[test]
fn too_short_streams_yield_no_window() {
    let mut x = IterPair(vec![1, 2, 3], vec![9]).with_analysis_windows(
        2,
        2,
        |_window: debs2021::windows::AnalysisWindow<i32, i32>, _cache: Option<()>| (0i32, ()),
    );
    assert!(x.next().is_none());
}
