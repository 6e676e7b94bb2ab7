use linfa::traits::{Fit, Predict};
use linfa::Dataset;
use linfa_linear::LinearRegression;
use ndarray::{Array1, Array2};
use trophy_analysis::loader::parse_records;
use trophy_analysis::stats::{feature_matrix, target_vector};

#[test]
fn two_rows_fit_exactly() {
    let text = "h\n0,0,0,0,0,5,3,0,0,0,1000,0,50,0,0,10\n0,0,0,0,0,8,6,0,0,0,1200,0,60,0,0,15\n";
    let records = parse_records(text.as_bytes()).unwrap();
    let features = feature_matrix(&records);
    let target = target_vector(&records);
    assert_eq!(features, vec![vec![5, 3, 50, 10], vec![8, 6, 60, 15]]);
    assert_eq!(target, vec![1000, 1200]);

    let flat: Vec<f64> = features.iter().flatten().map(|v| *v as f64).collect();
    let x = Array2::from_shape_vec((features.len(), 4), flat).unwrap();
    let y = Array1::from_vec(target.iter().map(|v| *v as f64).collect());
    let dataset = Dataset::new(x.clone(), y.clone());
    let model = LinearRegression::new().fit(&dataset).unwrap();
    let predictions: Array1<f64> = model.predict(&x);

    let n = y.len() as f64;
    let mae = y.iter().zip(predictions.iter()).map(|(a, p)| (a - p).abs()).sum::<f64>() / n;
    let mse = y.iter().zip(predictions.iter()).map(|(a, p)| (a - p).powi(2)).sum::<f64>() / n;
    assert!((predictions[0] - 1000.0).abs() < 1e-6);
    assert!((predictions[1] - 1200.0).abs() < 1e-6);
    assert!(mae < 1e-6);
    assert!(mse < 1e-6);
}
